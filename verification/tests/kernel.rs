use strength_calc::Assembler;
use strength_calc::Bar2;
use strength_calc::Element;
use strength_calc::FeaError;
use strength_calc::Material;
use strength_calc::Rat;
use strength_calc::SerialAssembler;
use strength_calc::Steel;
use strength_calc::Topology;
use strength_calc::Physics;
use strength_calc::solver::solve;

fn rat_to_f64(r: Rat) -> f64 {
    r.num() as f64 / r.den() as f64
}

fn demo_bar() -> Bar2 {
    let steel = Steel::default();
    Bar2 {
        node_ids: [0, 1],
        e: steel.e(),
        area: steel.area().unwrap(),
        length: Rat::from_int(1),
    }
}

#[test]
fn rat_arithmetic_is_exact() {
    let a = Rat::new(1, 2);
    let b = Rat::new(1, 3);
    let s = a.checked_add(b).unwrap();
    assert!(s.eq_rat(Rat::new(5, 6)));
    let d = a.checked_sub(b).unwrap();
    assert!(d.eq_rat(Rat::new(1, 6)));
    let m = a.checked_mul(b).unwrap();
    assert!(m.eq_rat(Rat::new(1, 6)));
    let q = a.checked_div(b).unwrap();
    assert!(q.eq_rat(Rat::new(3, 2)));
}

#[test]
fn rat_overflow_is_reported() {
    let big = Rat::from_int(i64::MAX);
    assert!(big.checked_add(Rat::from_int(1)).is_none());
    assert!(big.checked_mul(big).is_none());
}

#[test]
fn bar_local_stiffness_matches_closed_form() {
    // E = 210e9, A = 1e-4, L = 1  =>  k = 21e6
    let bar = demo_bar();
    assert!(bar.well_formed());
    let ts = bar.stiffness();
    assert_eq!(ts.len(), 4);
    let k = Rat::from_int(21_000_000);
    let nk = Rat::from_int(-21_000_000);
    assert_eq!((ts[0].row, ts[0].col), (0, 0));
    assert!(ts[0].val.eq_rat(k));
    assert_eq!((ts[1].row, ts[1].col), (0, 1));
    assert!(ts[1].val.eq_rat(nk));
    assert_eq!((ts[2].row, ts[2].col), (1, 0));
    assert!(ts[2].val.eq_rat(nk));
    assert_eq!((ts[3].row, ts[3].col), (1, 1));
    assert!(ts[3].val.eq_rat(k));
}

#[test]
fn bar_tags() {
    let bar = demo_bar();
    assert_eq!(bar.topology(), Topology::Bar2);
    assert_eq!(bar.physics(), Physics::StructuralMechanics);
}

#[test]
fn assembled_matrix_is_symmetric() {
    let e = Rat::from_int(4);
    let area = Rat::from_int(1);
    let bars = vec![
        Bar2 { node_ids: [0, 1], e, area, length: Rat::from_int(2) },
        Bar2 { node_ids: [1, 2], e, area, length: Rat::from_int(1) },
    ];
    let (k, _f) = SerialAssembler.assemble(3, &bars).unwrap();
    for r in 0..3usize {
        for c in 0..3usize {
            let x = k.entry_at(r, c);
            let y = k.entry_at(c, r);
            assert!(x.eq_rat(y));
        }
    }
}

#[test]
fn assembly_superposes_shared_dofs() {
    let e = Rat::from_int(6);
    let area = Rat::from_int(1);
    let b1 = Bar2 { node_ids: [0, 1], e, area, length: Rat::from_int(2) };
    let b2 = Bar2 { node_ids: [1, 2], e, area, length: Rat::from_int(3) };
    let (k_both, f) = SerialAssembler.assemble(3, &vec![b1, b2]).unwrap();
    let (k1, _) = SerialAssembler.assemble(3, &vec![b1]).unwrap();
    let (k2, _) = SerialAssembler.assemble(3, &vec![b2]).unwrap();
    for r in 0..3usize {
        for c in 0..3usize {
            let sum = k1.entry_at(r, c).checked_add(k2.entry_at(r, c)).unwrap();
            assert!(k_both.entry_at(r, c).eq_rat(sum));
        }
    }
    // the shared DOF accumulates both contributions: 6/2 + 6/3 = 5
    assert!(k_both.entry_at(1, 1).eq_rat(Rat::from_int(5)));
    // force vector is zero-initialized at the declared size
    assert_eq!(f.len(), 3);
    for v in &f {
        assert_eq!(v.num(), 0);
    }
}

#[test]
fn end_to_end_bar_demo() {
    let steel = Steel::default();
    let bar = demo_bar();
    let (k, mut f) = SerialAssembler.assemble(2, &vec![bar]).unwrap();
    f[1] = Rat::from_int(-1000);
    let u = solve(&k, &f, &vec![0]).unwrap();
    assert_eq!(u.len(), 2);
    // the fixed DOF is exactly zero
    assert_eq!(u[0].num(), 0);
    // u[1] = -1000 / 21e6 = -4.7619...e-5
    let expected = -1000.0f64 / 21.0e6;
    let got = rat_to_f64(u[1]);
    assert!(((got - expected) / expected).abs() < 1e-9);
    // derived stress E*(u1-u0)/L = -1e7 Pa, exactly
    let du = u[1].checked_sub(u[0]).unwrap();
    let stress = steel.e().checked_mul(du).unwrap().checked_div(bar.length).unwrap();
    assert!(stress.eq_rat(Rat::from_int(-10_000_000)));
    assert!((rat_to_f64(stress) - (-1.0e7)).abs() < 1e-3);
}

#[test]
fn singular_system_yields_explicit_error() {
    // zero-stiffness element, no fixed DOFs, nonzero load: no solution
    let bar = Bar2 {
        node_ids: [0, 1],
        e: Rat::from_int(210_000_000_000),
        area: Rat::from_int(0),
        length: Rat::from_int(1),
    };
    assert!(bar.well_formed());
    let (k, mut f) = SerialAssembler.assemble(2, &vec![bar]).unwrap();
    f[1] = Rat::from_int(-1000);
    let r = solve(&k, &f, &vec![]);
    assert_eq!(r.unwrap_err(), FeaError::Singular);
}

#[test]
fn dimension_mismatch_is_rejected() {
    let (k, _f) = SerialAssembler.assemble(2, &vec![demo_bar()]).unwrap();
    let short = vec![Rat::from_int(0)];
    assert_eq!(solve(&k, &short, &vec![0]).unwrap_err(), FeaError::DimensionMismatch);
}

#[test]
fn out_of_range_boundary_index_is_rejected() {
    let (k, f) = SerialAssembler.assemble(2, &vec![demo_bar()]).unwrap();
    assert_eq!(solve(&k, &f, &vec![5]).unwrap_err(), FeaError::InvalidBoundaryIndex);
}

#[test]
fn material_record_round_trips() {
    let steel = Steel::default();
    let rec = steel.to_record();
    assert_eq!(rec.e_num, 210_000_000_000);
    assert_eq!(rec.e_den, 1);
    assert_eq!(rec.area_num, 1);
    assert_eq!(rec.area_den, 10_000);
    let back = Steel::from_record(&rec).unwrap();
    assert_eq!(back, steel);
    // the accessors of the deserialized material return the same values
    assert_eq!(back.e(), steel.e());
    assert_eq!(back.area(), steel.area());
    assert!(back.e().eq_rat(Rat::from_int(210_000_000_000)));
    assert!(back.area().unwrap().eq_rat(Rat::new(1, 10_000)));
}

#[test]
fn empty_system_solves() {
    // a zero-DOF model assembles and solves: success is owed here
    let (k, f) = SerialAssembler.assemble(0, &Vec::<Bar2>::new()).unwrap();
    assert_eq!(k.size(), 0);
    let u = solve(&k, &f, &vec![]).unwrap();
    assert!(u.is_empty());
}

#[test]
fn invalid_material_record_is_rejected() {
    let mut rec = Steel::default().to_record();
    rec.e_den = 0;
    assert!(Steel::from_record(&rec).is_none());
}

#[test]
fn canonical_form_is_sorted_and_merged() {
    // two bars on the same node pair: duplicates must be summed, and the
    // canonical matrix holds one triplet per occupied entry
    let e = Rat::from_int(2);
    let area = Rat::from_int(1);
    let b = Bar2 { node_ids: [0, 1], e, area, length: Rat::from_int(1) };
    let (k, _f) = SerialAssembler.assemble(2, &vec![b, b]).unwrap();
    assert_eq!(k.size(), 2);
    assert_eq!(k.nnz(), 4);
    let mut last: Option<(usize, usize)> = None;
    for i in 0..k.nnz() {
        let t = k.triplet(i);
        if let Some((lr, lc)) = last {
            assert!(lr < t.row || (lr == t.row && lc < t.col));
        }
        last = Some((t.row, t.col));
    }
    assert!(k.entry_at(0, 0).eq_rat(Rat::from_int(4)));
    assert!(k.entry_at(0, 1).eq_rat(Rat::from_int(-4)));
}

#[test]
fn assembly_overflow_is_reported() {
    // two maximal stiffness coefficients merged at one entry cannot be
    // represented; assembly reports it instead of wrapping
    let b = Bar2 {
        node_ids: [0, 1],
        e: Rat::from_int(i64::MAX),
        area: Rat::from_int(1),
        length: Rat::from_int(1),
    };
    assert!(b.well_formed());
    let r = SerialAssembler.assemble(2, &vec![b, b]);
    assert_eq!(r.unwrap_err(), FeaError::Overflow);
}

#[test]
fn duplicated_or_reordered_fixed_dofs_agree() {
    // the fixed-DOF list names a set: duplicates and order do not matter
    let e = Rat::from_int(4);
    let area = Rat::from_int(1);
    let bars = vec![
        Bar2 { node_ids: [0, 1], e, area, length: Rat::from_int(2) },
        Bar2 { node_ids: [1, 2], e, area, length: Rat::from_int(1) },
    ];
    let (k, mut f) = SerialAssembler.assemble(3, &bars).unwrap();
    f[1] = Rat::from_int(-6);
    let u1 = solve(&k, &f, &vec![0, 2]).unwrap();
    let u2 = solve(&k, &f, &vec![2, 0, 2, 0]).unwrap();
    assert_eq!(u1.len(), u2.len());
    for i in 0..u1.len() {
        assert!(u1[i].eq_rat(u2[i]));
    }
}

#[test]
fn underdetermined_system_yields_explicit_error() {
    // zero-stiffness element, nothing fixed, zero loads: solutions exist
    // but none is unique, so the solver must still report singularity
    let bar = Bar2 {
        node_ids: [0, 1],
        e: Rat::from_int(0),
        area: Rat::from_int(1),
        length: Rat::from_int(1),
    };
    let (k, f) = SerialAssembler.assemble(2, &vec![bar]).unwrap();
    assert_eq!(solve(&k, &f, &vec![]).unwrap_err(), FeaError::Singular);
}
