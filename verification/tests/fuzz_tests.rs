//! Randomised operation sequences: the partition invariant, tree consistency, the
//! close-after-open law and determinism, each checked after every operation.

use pane::manager::Op;
use pane::{Dir, Rect, Renderer, SplitDir, TextRenderer, WindowManager};

const OPS: usize = 400;
const RUNS: usize = 40;
const MAX_WINDOWS: usize = 256;

/// A tiny xorshift64 generator, deterministic given a seed.
struct Rng {
    state: u64,
}

impl Rng {
    fn new(seed: u64) -> Rng {
        Rng { state: seed | 1 }
    }

    fn next_u64(&mut self) -> u64 {
        let mut x = self.state;
        x ^= x << 13;
        x ^= x >> 7;
        x ^= x << 17;
        self.state = x;
        x
    }

    fn below(&mut self, n: u64) -> u64 {
        self.next_u64() % n
    }
}

fn random_dir(rng: &mut Rng) -> Dir {
    match rng.below(4) {
        0 => Dir::Left,
        1 => Dir::Right,
        2 => Dir::Up,
        _ => Dir::Down,
    }
}

/// One random operation; opens are weighted above closes so layouts grow, and every verb
/// is reachable.
fn random_op(rng: &mut Rng) -> Op {
    match rng.below(16) {
        0..=4 => Op::Open(if rng.below(2) == 0 {
            SplitDir::Vertical
        } else {
            SplitDir::Horizontal
        }),
        5 | 6 => Op::Close,
        7..=9 => Op::Focus(random_dir(rng)),
        10 => Op::Move(random_dir(rng)),
        11 => Op::Resize(random_dir(rng)),
        12 => Op::Float,
        13 => Op::Monocle,
        _ => Op::Workspace(usize::try_from(rng.below(3)).unwrap_or(0)),
    }
}

/// A random operation, forced to a close once the active workspace holds `cap` windows.
fn random_op_capped(rng: &mut Rng, live: usize, cap: usize) -> Op {
    if live >= cap {
        return Op::Close;
    }
    random_op(rng)
}

fn run_one(seed: u64, ops: usize, screen: Rect, gap: i64, cap: usize) {
    let mut wm = WindowManager::new(screen, gap);
    let mut rng = Rng::new(seed);
    for step in 0..ops {
        let op = random_op_capped(&mut rng, wm.active_window_count(), cap);
        wm.apply(op);
        let report = wm.report();
        assert!(
            report.ok,
            "seed {seed} step {step} op {op:?} screen {screen:?} gap {gap}: invariant violated: {}",
            report.errors.join("; ")
        );
        assert_eq!(
            report.covered + report.gap_area,
            screen.area(),
            "seed {seed} step {step}: windows plus gaps must equal the screen"
        );
        if gap == 0 && !wm.frame().tiled.is_empty() {
            assert_eq!(
                report.gap_area, 0,
                "seed {seed} step {step}: no gap requested so windows must fill the screen"
            );
        }
    }
}

#[test]
fn partition_holds_no_gap() {
    let base: u64 = 0xA11CE;
    let screen = Rect::new(0, 0, 1200, 800);
    for r in 0..RUNS as u64 {
        run_one(base.wrapping_add(r.wrapping_mul(0x9E37_79B9_7F4A_7C15)), OPS, screen, 0, MAX_WINDOWS);
    }
}

#[test]
fn partition_holds_with_gap() {
    let base: u64 = 0xB0B;
    let screen = Rect::new(0, 0, 1200, 800);
    for r in 0..RUNS as u64 {
        run_one(base.wrapping_add(r.wrapping_mul(0x9E37_79B9_7F4A_7C15)), OPS, screen, 8, MAX_WINDOWS);
    }
}

#[test]
fn partition_holds_on_extreme_screens() {
    let base: u64 = 0x5CA1E;
    let screens = [
        Rect::new(0, 0, 1, 1),
        Rect::new(0, 0, 3, 3),
        Rect::new(0, 0, 1, 600),
        Rect::new(0, 0, 600, 1),
        Rect::new(0, 0, 7, 5),
        Rect::new(0, 0, 1001, 997),
    ];
    for (i, screen) in screens.into_iter().enumerate() {
        for gap in [0i64, 1, 4, 20] {
            for r in 0..RUNS as u64 {
                let seed = base
                    .wrapping_add((i as u64).wrapping_mul(0x1000))
                    .wrapping_add(u64::try_from(gap).unwrap_or(0).wrapping_mul(0x100))
                    .wrapping_add(r.wrapping_mul(0x9E37_79B9_7F4A_7C15));
                run_one(seed, OPS, screen, gap, MAX_WINDOWS);
            }
        }
    }
}

#[test]
fn tree_stays_well_formed_under_fuzz() {
    let base: u64 = 0x00C0_FFEE;
    let screen = Rect::new(0, 0, 1200, 800);
    for r in 0..RUNS as u64 {
        let seed = base.wrapping_add(r.wrapping_mul(0x9E37_79B9_7F4A_7C15));
        let mut wm = WindowManager::new(screen, 6);
        let mut rng = Rng::new(seed);
        for step in 0..OPS {
            let op = random_op_capped(&mut rng, wm.active_window_count(), MAX_WINDOWS);
            wm.apply(op);
            let errors = wm.consistency_errors();
            assert!(
                errors.is_empty(),
                "seed {seed} step {step} op {op:?}: tree not well formed: {}",
                errors.join("; ")
            );
        }
    }
}

#[test]
fn close_after_open_restores_layout() {
    let screen = Rect::new(0, 0, 1200, 800);
    let base: u64 = 0xD00D;
    for r in 0..20u64 {
        let seed = base.wrapping_add(r.wrapping_mul(0x9E37_79B9_7F4A_7C15));
        let mut wm = WindowManager::new(screen, 4);
        let mut rng = Rng::new(seed);
        for _ in 0..30 {
            wm.apply(random_op(&mut rng));
        }
        if wm.workspace().tree.is_none() {
            wm.apply(Op::Open(SplitDir::Vertical));
        }
        let before: Vec<_> = wm.frame().tiled.iter().map(|p| p.rect).collect();
        wm.apply(Op::Open(SplitDir::Horizontal));
        wm.apply(Op::Close);
        let after: Vec<_> = wm.frame().tiled.iter().map(|p| p.rect).collect();
        assert_eq!(before, after, "seed {seed}: close after open did not restore the layout");
    }
}

fn render_run(seed: u64, ops: usize) -> String {
    let mut wm = WindowManager::new(Rect::new(0, 0, 1200, 800), 8);
    let mut rng = Rng::new(seed);
    let mut renderer = TextRenderer::new();
    for _ in 0..ops {
        wm.apply(random_op_capped(&mut rng, wm.active_window_count(), MAX_WINDOWS));
        renderer.render(&wm.frame());
    }
    renderer.buffer
}

#[test]
fn same_seed_same_output() {
    let seed: u64 = 0x5EED;
    let a = render_run(seed, OPS);
    let b = render_run(seed, OPS);
    assert_eq!(a, b, "identical seeds must produce identical output");
}

#[test]
fn different_seeds_diverge() {
    let a = render_run(1, OPS);
    let b = render_run(2, OPS);
    assert_ne!(a, b, "different seeds should generally produce different layouts");
}
