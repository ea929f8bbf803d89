use unladen_coconut::util::linspace;

fn lerp(start: f32, end: f32, f: usize, n: usize) -> f32 {
    start + (end - start) * (f as f32 / n as f32)
}

#[test]
fn test_linspace() {
    let v: Vec<f32> = linspace(0.0f32, 1.0f32, 5, lerp);
    println!("{:?}", v);
}

#[test]
fn linspace_keeps_end_points_exact() {
    let v: Vec<f32> = linspace(0.1f32, 0.7f32, 4, lerp);
    assert_eq!(v.len(), 4);
    assert_eq!(v[0], 0.1f32);
    assert_eq!(v[3], 0.7f32);
    assert_eq!(v[1], lerp(0.1, 0.7, 1, 3));
    assert_eq!(v[2], lerp(0.1, 0.7, 2, 3));
}

#[test]
fn linspace_quarters() {
    let v: Vec<f32> = linspace(0.0f32, 1.0f32, 5, lerp);
    assert_eq!(v, vec![0.0, 0.25, 0.5, 0.75, 1.0]);
}

#[test]
fn linspace_of_one_yields_both_ends() {
    let v: Vec<u32> = linspace(3u32, 9u32, 1, |a: u32, _b: u32, _f: usize, _n: usize| a);
    assert_eq!(v, vec![3, 9]);
}

#[test]
fn linspace_passes_position_and_span() {
    let v: Vec<(usize, usize)> =
        linspace((0usize, 0usize), (99usize, 99usize), 4, |_a, _b, f: usize, n: usize| (f, n));
    assert_eq!(v, vec![(0, 0), (1, 3), (2, 3), (99, 99)]);
}
