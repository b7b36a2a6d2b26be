use sampled_fn::constant_sequences::{
    alternating, factorial, naturals, nonzero_t_cos, nonzero_t_cosh, nonzero_t_sin, nonzero_t_sinh,
    t_cos, t_cosh, t_exp, t_ln1p, t_sin, t_sinh, Frac,
};
use sampled_fn::sequences::{pull, Enumerate, Intersperse, LazySequence, Prepend, Skip, StepBy, Take, Zip};

fn rounded(terms: &[Frac]) -> Vec<f64> {
    terms
        .iter()
        .map(|f| ((f.num as f64 / f.den as f64) * 10000.0).round() / 10000.0)
        .collect()
}

fn frac(num: i64, den: i64) -> Frac {
    Frac { num, den }
}

#[test]
fn naturals_count_up_from_one() {
    assert_eq!(pull(&mut naturals(), 5), vec![1, 2, 3, 4, 5]);
}

#[test]
fn alternating_flips_sign() {
    assert_eq!(pull(&mut alternating(), 5), vec![1, -1, 1, -1, 1]);
}

#[test]
fn factorial_first_terms() {
    assert_eq!(pull(&mut factorial(), 5), vec![1, 1, 2, 6, 24]);
}

#[test]
fn factorial_stops_before_overflow() {
    let all = pull(&mut factorial(), 30);
    assert_eq!(all.len(), 21);
    assert_eq!(all[20], 2_432_902_008_176_640_000);
    let mut f = factorial();
    let _ = pull(&mut f, 21);
    assert_eq!(f.next(), None);
    assert_eq!(f.next(), None);
}

#[test]
fn t_exp_first_terms() {
    let terms = pull(&mut t_exp(), 4);
    assert_eq!(terms, vec![frac(1, 1), frac(1, 1), frac(1, 2), frac(1, 6)]);
    assert_eq!(rounded(&terms), vec![1.0, 1.0, 0.5, 0.1667]);
}

#[test]
fn t_cosh_first_terms() {
    let terms = pull(&mut t_cosh(), 7);
    assert_eq!(
        terms,
        vec![frac(1, 1), frac(0, 1), frac(1, 2), frac(0, 1), frac(1, 24), frac(0, 1), frac(1, 720)]
    );
    assert_eq!(pull(&mut nonzero_t_cosh(), 3), vec![frac(1, 1), frac(1, 2), frac(1, 24)]);
}

#[test]
fn t_cos_first_terms() {
    let terms = pull(&mut t_cos(), 7);
    assert_eq!(rounded(&terms), vec![1.0, 0.0, -0.5, 0.0, 0.0417, 0.0, -0.0014]);
    assert_eq!(
        pull(&mut nonzero_t_cos(), 4),
        vec![frac(1, 1), frac(-1, 2), frac(1, 24), frac(-1, 720)]
    );
}

#[test]
fn t_sinh_first_terms() {
    assert_eq!(
        pull(&mut t_sinh(), 6),
        vec![frac(0, 1), frac(1, 1), frac(0, 1), frac(1, 6), frac(0, 1), frac(1, 120)]
    );
    assert_eq!(pull(&mut nonzero_t_sinh(), 3), vec![frac(1, 1), frac(1, 6), frac(1, 120)]);
}

#[test]
fn t_sin_first_terms() {
    let terms = pull(&mut t_sin(), 6);
    assert_eq!(rounded(&terms), vec![0.0, 1.0, 0.0, -0.1667, 0.0, 0.0083]);
    assert_eq!(pull(&mut nonzero_t_sin(), 3), vec![frac(1, 1), frac(-1, 6), frac(1, 120)]);
}

#[test]
fn t_ln1p_first_terms() {
    let terms = pull(&mut t_ln1p(), 5);
    assert_eq!(terms, vec![frac(0, 1), frac(1, 1), frac(-1, 2), frac(1, 3), frac(-1, 4)]);
    assert_eq!(rounded(&terms), vec![0.0, 1.0, -0.5, 0.3333, -0.25]);
}

#[test]
fn series_end_where_factorials_overflow() {
    assert_eq!(pull(&mut t_exp(), 40).len(), 21);
    let cos = pull(&mut t_cos(), 40);
    assert_eq!(cos.len(), 21);
    assert_eq!(cos[20], frac(1, 2_432_902_008_176_640_000));
    assert_eq!(pull(&mut t_sin(), 40).len(), 20);
}

#[test]
fn fresh_instances_give_the_same_terms() {
    let mut a = t_cos();
    let _ = pull(&mut a, 3);
    assert_eq!(pull(&mut t_cos(), 9), pull(&mut t_cos(), 9));
    assert_eq!(pull(&mut t_ln1p(), 6), pull(&mut t_ln1p(), 6));
    assert_eq!(pull(&mut factorial(), 12), pull(&mut factorial(), 12));
}

#[test]
fn step_by_keeps_every_kth_value() {
    assert_eq!(pull(&mut StepBy::new(naturals(), 3), 4), vec![1, 4, 7, 10]);
    assert_eq!(pull(&mut StepBy::new(naturals(), 1), 3), vec![1, 2, 3]);
}

#[test]
fn skip_drops_leading_values() {
    assert_eq!(pull(&mut Skip::new(naturals(), 2), 3), vec![3, 4, 5]);
    assert_eq!(pull(&mut Skip::new(naturals(), 0), 2), vec![1, 2]);
}

#[test]
fn zip_pairs_in_step() {
    assert_eq!(pull(&mut Zip::new(naturals(), alternating()), 3), vec![(1, 1), (2, -1), (3, 1)]);
    let short = Take::new(naturals(), 2);
    assert_eq!(pull(&mut Zip::new(short, alternating()), 5), vec![(1, 1), (2, -1)]);
}

#[test]
fn intersperse_puts_separator_only_between_values() {
    let src = Take::new(naturals(), 3);
    assert_eq!(pull(&mut Intersperse::new(src, 0), 10), vec![1, 0, 2, 0, 3]);
    let one = Take::new(naturals(), 1);
    assert_eq!(pull(&mut Intersperse::new(one, 0), 10), vec![1]);
    let none = Take::new(naturals(), 0);
    assert_eq!(pull(&mut Intersperse::new(none, 0), 10), Vec::<i64>::new());
}

#[test]
fn prepend_puts_one_value_first() {
    assert_eq!(pull(&mut Prepend::new(-7, naturals()), 3), vec![-7, 1, 2]);
}

#[test]
fn take_ends_after_n_values() {
    let mut t = Take::new(naturals(), 2);
    assert_eq!(t.next(), Some(1));
    assert_eq!(t.next(), Some(2));
    assert_eq!(t.next(), None);
    assert_eq!(t.next(), None);
    assert_eq!(pull(&mut Take::new(naturals(), 0), 3), Vec::<i64>::new());
}

#[test]
fn enumerate_numbers_values_from_zero() {
    let terms = pull(&mut Take::new(Enumerate::new(t_exp()), 3), 10);
    assert_eq!(terms, vec![(0, frac(1, 1)), (1, frac(1, 1)), (2, frac(1, 2))]);
}

#[test]
fn pull_stops_where_the_source_ends() {
    let mut t = Take::new(naturals(), 3);
    assert_eq!(pull(&mut t, 2), vec![1, 2]);
    assert_eq!(pull(&mut t, 5), vec![3]);
    assert_eq!(pull(&mut t, 5), Vec::<i64>::new());
}
