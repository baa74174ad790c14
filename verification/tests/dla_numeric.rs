use gsim::{DlaBuilder, DlaStep};
use itertools::Itertools;
use nalgebra::{DMatrix, DVector};
use num::complex::Complex64;
use rand::Rng;

type CMatrix2 = DMatrix<Complex64>;

fn is_zero(matrix: &CMatrix2) -> bool {
    matrix.norm_squared() < 1.0e-9 * (matrix.ncols() * matrix.nrows() * 2) as f64
}

fn commutator(a: &CMatrix2, b: &CMatrix2) -> CMatrix2 {
    (a * b) - (b * a)
}

fn ip(a: &CMatrix2, b: &CMatrix2) -> Complex64 {
    a.dot(&b.conjugate())
}

fn gram_schmidt(target: CMatrix2, base: &CMatrix2) -> CMatrix2 {
    &target - base * (ip(base, &target) / ip(base, base))
}

fn gs_system(target: CMatrix2, system: &[&CMatrix2]) -> CMatrix2 {
    if is_zero(&target) {
        return CMatrix2::zeros(target.nrows(), target.ncols());
    }
    let mut gs = target;
    for base in system {
        gs = gram_schmidt(gs, base);
        if is_zero(&gs) {
            return CMatrix2::zeros(gs.nrows(), gs.ncols());
        }
    }
    gs
}

fn normalize(c: &CMatrix2) -> CMatrix2 {
    c * Complex64::new(1.0 / c.norm(), 0.0)
}

fn smallize(c: &CMatrix2) -> CMatrix2 {
    if c.norm() < 1.0 {
        return c.clone();
    }
    normalize(c)
}

fn normalize_all(input: Vec<CMatrix2>) -> Vec<CMatrix2> {
    input.iter().map(normalize).collect()
}

fn get_schmit_basis(mut hams: Vec<CMatrix2>) -> Vec<CMatrix2> {
    assert!(!hams.is_empty(), "The vector is empty");
    let mut basis: Vec<CMatrix2> = Vec::new();
    while let Some(element) = hams.pop() {
        let new_base = if basis.is_empty() {
            element
        } else {
            let refs: Vec<&CMatrix2> = basis.iter().collect();
            smallize(&gs_system(element, &refs))
        };
        if !is_zero(&new_base) {
            basis.push(new_base);
        }
    }
    basis
}

fn get_dla(hams: &Vec<CMatrix2>) -> Vec<CMatrix2> {
    let mut elements = get_schmit_basis(hams.clone());
    for e in elements.iter_mut() {
        *e = &*e * Complex64::new(0.0, 1.0);
    }
    let dim = elements.last().map(|m| m.ncols()).unwrap_or(0);
    let mut search = DlaBuilder::new(elements.len(), dim);
    while let Some(step) = search.next_step() {
        let candidate = match step {
            DlaStep::Generator(g) => elements[g].clone(),
            DlaStep::Commutator(left, right) => commutator(&elements[left], &elements[right]),
        };
        let mut remainder = candidate;
        let independent = if is_zero(&remainder) {
            false
        } else {
            let old: Vec<&CMatrix2> = search.old_group().iter().map(|&i| &elements[i]).collect();
            remainder = gs_system(remainder, &old);
            let new: Vec<&CMatrix2> = search.new_group().iter().map(|&i| &elements[i]).collect();
            remainder = gs_system(remainder, &new);
            !is_zero(&remainder)
        };
        if let Some(id) = search.report(independent) {
            let kept = smallize(&remainder);
            if id == elements.len() {
                elements.push(kept);
            } else {
                elements[id] = kept;
            }
        }
    }
    let (ids, normalize) = search.result();
    let result: Vec<CMatrix2> = ids.iter().map(|&i| elements[i].clone()).collect();
    if normalize {
        normalize_all(result)
    } else {
        result
    }
}

fn round_tenth(x: f64) -> f64 {
    (x * 10.0).round() / 10.0
}

fn make_random_hermitian(rows: usize, cols: usize) -> CMatrix2 {
    let mut rng = rand::thread_rng();
    let mut matrix: CMatrix2 = DMatrix::zeros(rows, cols);
    for i in 0..rows {
        for j in 0..cols {
            if i > j {
                let re = round_tenth(rng.gen_range(-1.0..1.0));
                let im = round_tenth(rng.gen_range(-1.0..1.0));
                matrix[(i, j)] = Complex64::new(re, im);
                matrix[(j, i)] = Complex64::new(re, im).conj();
            } else if i == j {
                let re = round_tenth(rng.gen_range(-1.0..1.0));
                matrix[(i, i)] = Complex64::new(re, 0.0);
            }
        }
    }
    matrix
}

/// Orthogonality under the Frobenius inner product `tr(A B^dagger)`.
fn is_orthogonal(c1: &CMatrix2, c2: &CMatrix2) -> bool {
    let result = c1.dotc(c2);
    result.re.powi(2) + result.im.powi(2) < 1.0e-9 * (c1.ncols() * c2.nrows() * 2) as f64
}

fn is_all_orthogonal(system: &Vec<CMatrix2>) -> bool {
    system.iter().combinations(2).all(|v| is_orthogonal(v[0], v[1]))
}

const ONE: Complex64 = Complex64::new(1.0, 0.0);
const MINUS_ONE: Complex64 = Complex64::new(-1.0, 0.0);
const ZERO: Complex64 = Complex64::new(0.0, 0.0);

#[test]
fn test_get_dla() {
    let n = 1;
    let hdim = 2i64.pow(n as u32) as usize;
    let rand1 = make_random_hermitian(hdim, hdim);
    let rand2 = make_random_hermitian(hdim, hdim);
    let vohs = vec![rand1, rand2];
    let dla = get_dla(&vohs);
    let normalized_dla = normalize_all(dla);
    assert!(is_all_orthogonal(&normalized_dla));
}

#[test]
fn random_generators_give_an_orthogonal_algebra() {
    for _ in 0..50 {
        let rand1 = make_random_hermitian(2, 2);
        let rand2 = make_random_hermitian(2, 2);
        let dla = get_dla(&vec![rand1, rand2]);
        assert!(dla.len() <= 4);
        assert!(is_all_orthogonal(&normalize_all(dla)));
    }
}

const I_UNIT: Complex64 = Complex64::new(0.0, 1.0);
const MINUS_I: Complex64 = Complex64::new(0.0, -1.0);

fn pauli_x() -> CMatrix2 {
    CMatrix2::from_vec(2, 2, vec![ZERO, ONE, ONE, ZERO])
}

fn pauli_y() -> CMatrix2 {
    CMatrix2::from_vec(2, 2, vec![ZERO, I_UNIT, MINUS_I, ZERO])
}

fn pauli_z() -> CMatrix2 {
    CMatrix2::from_vec(2, 2, vec![ONE, ZERO, ZERO, MINUS_ONE])
}

fn identity() -> CMatrix2 {
    CMatrix2::from_vec(2, 2, vec![ONE, ZERO, ZERO, ONE])
}

fn assert_orthonormal(dla: &Vec<CMatrix2>) {
    assert!(is_all_orthogonal(dla));
    for m in dla {
        assert!(m.iter().all(|z| z.re.is_finite() && z.im.is_finite()));
        assert!((m.norm() - 1.0).abs() < 1.0e-12);
    }
}

#[test]
fn pauli_x_and_z_generate_su2() {
    let dla = get_dla(&vec![pauli_x(), pauli_z()]);
    assert_eq!(dla.len(), 3);
    assert_orthonormal(&dla);
}

#[test]
fn a_generator_in_the_algebra_adds_nothing() {
    let dla = get_dla(&vec![pauli_x(), pauli_z(), pauli_y()]);
    assert_eq!(dla.len(), 3);
    assert_orthonormal(&dla);
}

#[test]
fn a_repeated_generator_adds_nothing() {
    let dla = get_dla(&vec![pauli_z(), pauli_x(), pauli_z()]);
    assert_eq!(dla.len(), 3);
    assert_orthonormal(&dla);
}

#[test]
fn one_qubit_algebra_is_at_most_u2() {
    let dla = get_dla(&vec![pauli_x(), pauli_z(), pauli_y(), identity()]);
    assert_eq!(dla.len(), 4);
    assert_orthonormal(&dla);
}

#[test]
fn commuting_generators_add_nothing() {
    let dla = get_dla(&vec![pauli_z(), identity()]);
    assert_eq!(dla.len(), 2);
}

// The simulation on top of the algebra, as in the documented examples.

fn adjoint_rep(target: &CMatrix2, basis: &Vec<CMatrix2>) -> CMatrix2 {
    let dim = basis.len();
    let mut rep = CMatrix2::zeros(dim, dim);
    for (i, j) in (0..dim).cartesian_product(0..dim) {
        rep[(i, j)] = (target * commutator(&basis[i], &basis[j])).trace();
    }
    rep
}

fn get_e(density_mat: &CMatrix2, dla: &Vec<CMatrix2>) -> DVector<f64> {
    DVector::from_iterator(dla.len(), dla.iter().map(|g| (g * density_mat).trace().im))
}

fn get_unitary(hamiltonian: &CMatrix2, parameter: f64) -> DMatrix<f64> {
    let result = (hamiltonian * Complex64::new(parameter, 0.0) * MINUS_I).exp();
    DMatrix::from_fn(result.nrows(), result.ncols(), |i, j| result[(i, j)].re)
}

fn simulate(init: CMatrix2, obs: CMatrix2, gates: Vec<CMatrix2>, params: Vec<(f64, usize)>) -> f64 {
    let mut hams = vec![obs.clone()];
    hams.extend(gates.clone());
    let dla = get_dla(&hams);
    let e_in = get_e(&init, &dla);
    let ad: Vec<CMatrix2> = gates.iter().map(|h| adjoint_rep(h, &dla)).collect();
    let mut e_out = e_in;
    for (param, number) in params {
        e_out = get_unitary(&ad[number], param) * e_out;
    }
    let w = DVector::from_iterator(dla.len(), dla.iter().map(|g| ip(&(&obs * I_UNIT), g).re));
    (w.transpose() * &e_out)[0]
}

#[test]
fn documented_single_gate_circuit() {
    let init = CMatrix2::from_vec(2, 2, vec![ZERO, ZERO, ZERO, ONE]);
    let result = simulate(init, pauli_z(), vec![pauli_x(), pauli_z()], vec![(1.57079632679, 1)]);
    assert!((result - (-1.0)).abs() < 1.0e-12, "{}", result);
}

#[test]
fn documented_three_gate_circuit() {
    let init = CMatrix2::from_vec(2, 2, vec![ZERO, ZERO, ZERO, ONE]);
    let result = simulate(
        init,
        pauli_z(),
        vec![pauli_x(), pauli_z()],
        vec![(0.5, 1), (1.0, 0), (0.1, 0)],
    );
    assert!((result - 0.588501117255346).abs() < 1.0e-12, "{}", result);
}
