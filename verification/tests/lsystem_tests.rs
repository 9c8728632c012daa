use mandelbrot_rs::lsystem::{turtle_moves, Grammar, IterationDepth};

fn koch() -> Grammar {
    Grammar { start: "F--F--F", rules: &[('F', "F+F--F+F")] }
}

#[test]
fn koch_iteration_zero_is_the_start() {
    assert_eq!(koch().expand(0), "F--F--F");
}

#[test]
fn koch_iteration_one() {
    assert_eq!(koch().expand(1), "F+F--F+F--F+F--F+F--F+F--F+F");
}

#[test]
fn koch_iteration_two_rewrites_iteration_one() {
    let one = koch().expand(1);
    let expected: String = one
        .chars()
        .map(|c| if c == 'F' { "F+F--F+F".to_string() } else { c.to_string() })
        .collect();
    assert_eq!(koch().expand(2), expected);
    assert_eq!(koch().expand(2).len(), 12 * 8 + 16);
}

#[test]
fn first_rule_wins_and_others_are_kept() {
    let g = Grammar { start: "ab-c", rules: &[('a', "xy"), ('a', "zz"), ('c', "")] };
    assert_eq!(g.expand(1), "xyb-");
    let g2 = Grammar { start: "abc", rules: &[] };
    assert_eq!(g2.expand(5), "abc");
}

#[test]
fn sierpinski_like_growth() {
    let g = Grammar { start: "A", rules: &[('A', "B-A-B"), ('B', "A+B+A")] };
    assert_eq!(g.expand(1), "B-A-B");
    assert_eq!(g.expand(2), "A+B+A-B-A-B-A+B+A");
}

#[test]
fn turtle_steps_and_turns() {
    let m = turtle_moves("F+F-f");
    assert_eq!(m.len(), 3);
    assert_eq!((m[0].from, m[0].turns, m[0].draw), (0, 0, true));
    assert_eq!((m[1].from, m[1].turns, m[1].draw), (1, 1, true));
    assert_eq!((m[2].from, m[2].turns, m[2].draw), (2, 0, false));
}

#[test]
fn turtle_brackets_restore_position_and_heading() {
    let m = turtle_moves("F[+F]-F");
    assert_eq!(m.len(), 3);
    assert_eq!((m[0].from, m[0].turns), (0, 0));
    assert_eq!((m[1].from, m[1].turns), (1, 1));
    assert_eq!((m[2].from, m[2].turns), (1, -1));
}

#[test]
fn turtle_ignores_unmatched_pop_and_other_characters() {
    let m = turtle_moves("]]XF?]F");
    assert_eq!(m.len(), 2);
    assert_eq!((m[0].from, m[1].from), (0, 1));
    assert!(turtle_moves("").is_empty());
}

#[test]
fn turtle_draws_one_segment_per_f() {
    let s = koch().expand(2);
    let m = turtle_moves(&s);
    assert_eq!(m.len(), s.chars().filter(|&c| c == 'F').count());
    assert!(m.iter().enumerate().all(|(i, mv)| mv.draw && mv.from == i));
}

#[test]
fn depth_stays_within_bounds() {
    let mut d = IterationDepth::new(1, 2);
    assert!(d.decrease());
    assert_eq!(d.iterations, 0);
    assert!(!d.decrease());
    assert_eq!(d.iterations, 0);
    assert!(d.increase());
    assert!(d.increase());
    assert_eq!(d.iterations, 2);
    assert!(!d.increase());
    assert_eq!(d.iterations, 2);
    assert_eq!(d.max_iterations, 2);
}

fn moves_of(s: &str) -> Vec<(usize, i128, bool)> {
    turtle_moves(s).iter().map(|m| (m.from, m.turns, m.draw)).collect()
}

/// The segments drawn on the square lattice: heading `t` steps by the unit
/// vector `t` quarter turns from the x axis.
fn lattice_segments(s: &str) -> Vec<((i64, i64), (i64, i64))> {
    let moves = turtle_moves(s);
    let mut points = vec![(0i64, 0i64)];
    let mut segs = Vec::new();
    for m in &moves {
        let (x, y) = points[m.from];
        let (dx, dy) = match m.turns.rem_euclid(4) {
            0 => (1, 0),
            1 => (0, 1),
            2 => (-1, 0),
            _ => (0, -1),
        };
        let p = (x + dx, y + dy);
        points.push(p);
        if m.draw {
            segs.push(((x, y), p));
        }
    }
    segs
}

#[test]
fn bracketed_moves_are_those_of_the_parts() {
    // "[F+F]F": the steps of "F+F", then those of "F" from the origin again
    assert_eq!(moves_of("[F+F]F"), vec![(0, 0, true), (1, 1, true), (0, 0, true)]);
    let mut expected = moves_of("F+F");
    expected.extend(moves_of("F"));
    assert_eq!(moves_of("[F+F]F"), expected);
    assert_eq!(moves_of("]F+F"), moves_of("F+F"));
}

#[test]
fn bracketed_segments_are_those_of_the_parts() {
    let b = "F+F[-F]F";
    let c = "-FF+F";
    let mut expected = lattice_segments(b);
    expected.extend(lattice_segments(c));
    assert_eq!(lattice_segments(&format!("[{}]{}", b, c)), expected);
    assert_eq!(lattice_segments(&format!("]{}", c)), lattice_segments(c));
    assert_eq!(lattice_segments("[F+F]F"), vec![((0, 0), (1, 0)), ((1, 0), (1, 1)), ((0, 0), (1, 0))]);
}
