use ben::bens::Lbl;
use ben::label::{mrg_unq_srt, unq_srt};
use ben::compare::Cmp;
use ben::error::BenError;
use ben::group::{Grp, Grps, Ser, Sers};
use ben::query::{Out, Qry};
use ben::run::{reduce, Dat, Run, Sta};
use ben::set::BenSet;

type Body = Box<dyn Fn() -> u64>;

fn body(v: u64) -> Body {
    Box::new(move || v)
}

fn lens(run: &Run<Lbl>) -> Vec<u32> {
    let mut r = Vec::new();
    for d in run.res.iter() {
        for l in d.lbls.iter() {
            if let Lbl::Len(n) = l {
                r.push(*n);
            }
        }
    }
    r
}

fn arr_vec_set() -> BenSet<Lbl, Body> {
    let mut set: BenSet<Lbl, Body> = BenSet::new();
    set.ins(&[Lbl::Alc, Lbl::Arr, Lbl::Len(16)], body(10)).unwrap();
    set.ins(&[Lbl::Alc, Lbl::Arr, Lbl::Len(32)], body(20)).unwrap();
    set.ins(&[Lbl::Alc, Lbl::Arr, Lbl::Len(64)], body(30)).unwrap();
    set.ins(&[Lbl::Alc, Lbl::Vec, Lbl::Len(16)], body(15)).unwrap();
    set.ins(&[Lbl::Alc, Lbl::Vec, Lbl::Len(32)], body(15)).unwrap();
    set.ins(&[Lbl::Alc, Lbl::Vec, Lbl::Len(64)], body(40)).unwrap();
    set
}

fn query(frm: Vec<Vec<Lbl>>) -> Qry<Lbl> {
    Qry { frm, grp: None, srt: None, sta: None, trn: None, cmp: false, itr: 4 }
}

#[test]
fn allocate_array_lengths() {
    let mut set: BenSet<Lbl, Body> = BenSet::new();
    set.ins(&[Lbl::Alc, Lbl::Arr, Lbl::Len(64)], body(640)).unwrap();
    set.ins(&[Lbl::Alc, Lbl::Arr, Lbl::Len(16)], body(160)).unwrap();
    set.ins(&[Lbl::Alc, Lbl::Arr, Lbl::Len(32)], body(320)).unwrap();
    let frm = set.frm(&vec![vec![Lbl::Alc, Lbl::Arr]]).unwrap();
    let run = frm.run(8, &Some(Lbl::Len(0)), &Some(Sta::Mdn), 0);
    assert_eq!(run.res.len(), 3);
    assert_eq!(lens(&run), vec![16, 32, 64]);
    for d in run.res.iter() {
        assert_eq!(d.vals.len(), 1);
    }
    assert_eq!(run.res[0].vals, vec![160]);
    assert_eq!(run.res[2].vals, vec![640]);
}

#[test]
fn compare_array_vs_vector() {
    let set = arr_vec_set();
    let lists = vec![vec![Lbl::Alc, Lbl::Arr], vec![Lbl::Alc, Lbl::Vec]];
    let q = Qry {
        frm: lists.clone(),
        grp: Some(lists),
        srt: None,
        sta: Some(Sta::Mdn),
        trn: Some(Lbl::Len(0)),
        cmp: true,
        itr: 8,
    };
    let cmps = match set.qry(&q, 0).unwrap() {
        Out::Cmps(c) => c,
        _ => panic!("expected comparisons"),
    };
    assert_eq!(cmps.0.len(), 1);
    let c: &Cmp = &cmps.0[0];
    assert_eq!(c.axis.name, "len");
    assert_eq!(c.axis.vals, vec![16, 32, 64]);
    assert_eq!(c.a.name, "alc,arr");
    assert_eq!(c.b.name, "alc,vec");
    assert_eq!(c.a.vals, vec![10, 20, 30]);
    assert_eq!(c.b.vals, vec![15, 15, 40]);
    assert_eq!(c.a_best, vec![true, false, true]);
    assert_eq!(c.b_best, vec![false, true, false]);
    assert!(c.a_lead);
    assert!(!c.b_lead);
    assert_eq!(c.ratio, vec![(15, 10), (20, 15), (40, 30)]);
}

#[test]
fn empty_group() {
    let mut set: BenSet<Lbl, Body> = BenSet::new();
    set.ins(&[Lbl::Alc, Lbl::Arr, Lbl::Len(16)], body(1)).unwrap();
    set.ins(&[Lbl::Alc, Lbl::Arr, Lbl::Len(32)], body(2)).unwrap();
    set.ins(&[Lbl::Alc, Lbl::Arr, Lbl::Len(64)], body(3)).unwrap();
    let frm = set.frm(&vec![vec![Lbl::Alc]]).unwrap();
    let run = frm.run(2, &None, &None, 0);
    let groups = vec![vec![Lbl::Alc, Lbl::Arr], vec![Lbl::Alc, Lbl::Vec]];
    match run.grp(&groups, &None) {
        Err(BenError::EmptyGroup(v)) => assert_eq!(v, vec![Lbl::Alc, Lbl::Vec]),
        _ => panic!("expected an empty group"),
    }
}

#[test]
fn manual_timing() {
    let mut t = ben::timer::Tme(0);
    t.start(1_000);
    t.stop(1_250);
    assert_eq!(t.0, 250);
    let mut u = ben::timer::Tme(0);
    u.stop(77);
    assert_eq!(u.0, 77);
    let mut w = ben::timer::Tme(0);
    w.start(500);
    w.stop(400);
    assert_eq!(w.0, 0);
}

#[test]
fn overhead_floor() {
    let spans = [(10u64, 50u64), (100, 130), (200, 260), (300, 335)];
    assert_eq!(ben::timer::overhead_cpu_cyc(&spans), 30);
    let again = [(0u64, 31u64), (40, 72), (80, 110), (120, 153)];
    assert_eq!(ben::timer::overhead_cpu_cyc(&again), 30);
    assert_eq!(ben::timer::overhead_cpu_cyc(&[(9u64, 5u64)]), 0);
}

#[test]
fn insertion_order_ids() {
    let mut set: BenSet<Lbl, Body> = BenSet::new();
    set.ins(&[Lbl::Wrt, Lbl::Len(9)], body(1)).unwrap();
    set.ins(&[Lbl::Alc], body(2)).unwrap();
    set.ins(&[Lbl::Rd, Lbl::Wrt], body(3)).unwrap();
    assert_eq!(set.id, 3);
    assert_eq!(set.ops[0].lbls, vec![Lbl::Wrt, Lbl::Len(9)]);
    assert_eq!(set.ops[1].lbls, vec![Lbl::Alc]);
    assert_eq!(set.ops[2].lbls, vec![Lbl::Rd, Lbl::Wrt]);
    assert_eq!((set.ops[0].fnc)(), 1);
    assert_eq!((set.ops[2].fnc)(), 3);
    let frm = set.frm(&vec![vec![Lbl::Wrt]]).unwrap();
    assert_eq!(frm.ops.len(), 2);
    assert_eq!((frm.ops[0].fnc)(), 1);
    assert_eq!((frm.ops[1].fnc)(), 3);
}

#[test]
fn filter_finds_inserted_label() {
    let mut set: BenSet<Lbl, Body> = BenSet::new();
    set.ins(&[Lbl::Mat, Lbl::Ser], body(5)).unwrap();
    set.ins(&[Lbl::Cap, Lbl::Prm(4), Lbl::Ser], body(6)).unwrap();
    for t in [Lbl::Cap, Lbl::Prm(4), Lbl::Ser] {
        let frm = set.frm(&vec![vec![t]]).unwrap();
        assert!(frm.ops.iter().any(|op| (op.fnc)() == 6));
    }
    assert!(set.frm(&vec![vec![Lbl::Dsc]]).is_none());
    assert!(set.frm(&vec![vec![Lbl::Prm(5)]]).is_none());
    assert!(set.frm(&vec![]).is_none());
    assert!(set.frm(&vec![vec![]]).is_none());
    assert!(set.frm(&vec![vec![Lbl::Mat, Lbl::Cap]]).is_none());
}

#[test]
fn permuted_labels_same_tags() {
    let mut set: BenSet<Lbl, Body> = BenSet::new();
    set.ins(&[Lbl::Len(8), Lbl::Alc, Lbl::Vec, Lbl::Alc], body(1)).unwrap();
    set.ins(&[Lbl::Vec, Lbl::Len(8), Lbl::Alc], body(2)).unwrap();
    assert_eq!(set.ops[0].lbls, set.ops[1].lbls);
    assert_eq!(set.ops[0].lbls, vec![Lbl::Alc, Lbl::Vec, Lbl::Len(8)]);
}

#[test]
fn run_sample_counts() {
    let set = arr_vec_set();
    let frm = set.frm(&vec![vec![Lbl::Arr]]).unwrap();
    let raw = frm.run(5, &None, &None, 0);
    assert_eq!(raw.res.len(), 3);
    for d in raw.res.iter() {
        assert_eq!(d.vals.len(), 5);
    }
    for sta in [Sta::Mdn, Sta::Min, Sta::Max, Sta::Avg] {
        let red = frm.run(5, &None, &Some(sta), 0);
        for d in red.res.iter() {
            assert_eq!(d.vals.len(), 1);
        }
    }
}

#[test]
fn samples_saturate() {
    let mut set: BenSet<Lbl, Body> = BenSet::new();
    set.ins(&[Lbl::Lop], body(3)).unwrap();
    set.ins(&[Lbl::Lop, Lbl::Unr], body(25)).unwrap();
    let frm = set.frm(&vec![vec![Lbl::Lop]]).unwrap();
    let run = frm.run(3, &None, &None, 10);
    assert_eq!(run.res[0].vals, vec![0, 0, 0]);
    assert_eq!(run.res[1].vals, vec![15, 15, 15]);
}

#[test]
fn sort_is_stable_and_ascending() {
    let mut set: BenSet<Lbl, Body> = BenSet::new();
    set.ins(&[Lbl::Asc, Lbl::Len(32)], body(1)).unwrap();
    set.ins(&[Lbl::Asc, Lbl::Len(8)], body(2)).unwrap();
    set.ins(&[Lbl::Asc, Lbl::Len(32)], body(3)).unwrap();
    set.ins(&[Lbl::Asc], body(4)).unwrap();
    let frm = set.frm(&vec![vec![Lbl::Asc]]).unwrap();
    let run = frm.run(1, &Some(Lbl::Len(0)), &None, 0);
    let vals: Vec<u64> = run.res.iter().map(|d| d.vals[0]).collect();
    assert_eq!(vals, vec![4, 2, 1, 3]);
}

#[test]
fn transpose_shape() {
    let set = arr_vec_set();
    let frm = set.frm(&vec![vec![Lbl::Alc]]).unwrap();
    let run = frm.run(3, &Some(Lbl::Len(0)), &Some(Sta::Max), 0);
    let grps = run
        .grp(&vec![vec![Lbl::Arr], vec![Lbl::Vec]], &Some(Lbl::Len(0)))
        .unwrap();
    assert_eq!(grps.0.len(), 2);
    let sers = grps.ser(Lbl::Len(0)).unwrap();
    assert_eq!(sers.0.len(), 3);
    assert_eq!(sers.0[0].name, "len");
    assert_eq!(sers.0[0].vals, vec![16, 32, 64]);
    assert_eq!(sers.0[1].name, "arr");
    assert_eq!(sers.0[1].vals, vec![10, 20, 30]);
    assert_eq!(sers.0[2].name, "vec");
    assert_eq!(sers.0[2].vals, vec![15, 15, 40]);
}

fn sers_of(n: usize) -> Sers {
    let mut v = vec![Ser::new(String::from("len"), vec![1, 2])];
    for k in 0..n {
        v.push(Ser::new(format!("s{}", k), vec![k as u64, 3]));
    }
    Sers(v)
}

#[test]
fn compare_counts_pairs() {
    let c = sers_of(4).cmp::<Lbl>().unwrap();
    assert_eq!(c.0.len(), 6);
    let names: Vec<(String, String)> = c.0.iter().map(|x| (x.a.name.clone(), x.b.name.clone())).collect();
    assert_eq!(names[0], (String::from("s0"), String::from("s1")));
    assert_eq!(names[2], (String::from("s0"), String::from("s3")));
    assert_eq!(names[3], (String::from("s1"), String::from("s2")));
    assert_eq!(names[5], (String::from("s2"), String::from("s3")));
    assert_eq!(sers_of(2).cmp::<Lbl>().unwrap().0.len(), 1);
    assert!(matches!(sers_of(1).cmp::<Lbl>(), Err(BenError::InsufficientSeries)));
    assert!(matches!(sers_of(0).cmp::<Lbl>(), Err(BenError::InsufficientSeries)));
}

#[test]
fn compare_truncates_and_marks_ties() {
    let s = Sers(vec![
        Ser::new(String::from("len"), vec![1, 2, 3]),
        Ser::new(String::from("a"), vec![0, 5, 9]),
        Ser::new(String::from("b"), vec![0, 4]),
    ]);
    let c = s.cmp::<Lbl>().unwrap();
    let x = &c.0[0];
    assert_eq!(x.a.vals, vec![0, 5]);
    assert_eq!(x.b.vals, vec![0, 4]);
    assert_eq!(x.a_best, vec![true, false]);
    assert_eq!(x.b_best, vec![true, true]);
    assert_eq!(x.ratio, vec![(0, 1), (5, 4)]);
    assert!(!x.a_lead);
    assert!(x.b_lead);
    assert_eq!(x.axis.vals, vec![1, 2, 3]);
}

#[test]
fn canonical_forms() {
    let once = unq_srt(&[Lbl::Vec, Lbl::Len(2), Lbl::Alc, Lbl::Vec, Lbl::Len(1)]);
    assert_eq!(once, vec![Lbl::Alc, Lbl::Vec, Lbl::Len(1), Lbl::Len(2)]);
    assert_eq!(unq_srt(&once), once);
    assert_eq!(unq_srt::<Lbl>(&[]), Vec::<Lbl>::new());
    let m = mrg_unq_srt(&[Lbl::Alc, Lbl::Arr], &[Lbl::Len(4), Lbl::Alc]);
    assert_eq!(m, vec![Lbl::Alc, Lbl::Arr, Lbl::Len(4)]);
}

#[test]
fn filter_append() {
    let set = arr_vec_set();
    let ts = vec![vec![Lbl::Arr, Lbl::Len(32)]];
    let us = vec![vec![Lbl::Vec], vec![Lbl::Rd]];
    let mut both = ts.clone();
    both.extend(us.clone());
    let a: Vec<u64> = set.frm(&ts).unwrap().ops.iter().map(|o| (o.fnc)()).collect();
    let b: Vec<u64> = set.frm(&us).unwrap().ops.iter().map(|o| (o.fnc)()).collect();
    let c: Vec<u64> = set.frm(&both).unwrap().ops.iter().map(|o| (o.fnc)()).collect();
    let mut ab = a.clone();
    ab.extend(b);
    assert_eq!(c, ab);
    assert_eq!(c, vec![20, 15, 15, 40]);
}

#[test]
fn missing_labels_error() {
    let mut set: BenSet<Lbl, Body> = BenSet::new();
    assert!(matches!(set.ins(&[], body(1)), Err(BenError::MissingLabels)));
    assert_eq!(set.id, 0);
    assert_eq!(set.ops.len(), 0);
}

#[test]
fn section_adds_labels() {
    let mut set: BenSet<Lbl, Body> = BenSet::new();
    {
        let mut sec = set.sec(&[Lbl::Vec, Lbl::Alc]);
        sec.ins(&[Lbl::Len(16)], body(1)).unwrap();
        sec.ins(&[Lbl::Len(32), Lbl::Alc], body(2)).unwrap();
        sec.ins(&[], body(3)).unwrap();
    }
    assert_eq!(set.ops.len(), 3);
    assert_eq!(set.ops[0].lbls, vec![Lbl::Alc, Lbl::Vec, Lbl::Len(16)]);
    assert_eq!(set.ops[1].lbls, vec![Lbl::Alc, Lbl::Vec, Lbl::Len(32)]);
    assert_eq!(set.ops[2].lbls, vec![Lbl::Alc, Lbl::Vec]);
    let mut empty: BenSet<Lbl, Body> = BenSet::new();
    let mut sec = empty.sec(&[]);
    assert!(matches!(sec.ins(&[], body(1)), Err(BenError::MissingLabels)));
}

fn grps_one(dats: Vec<Dat<Lbl>>) -> Grps<Lbl> {
    Grps(vec![Grp::new(&[Lbl::Alc], dats)])
}

#[test]
fn transpose_errors() {
    let missing = grps_one(vec![Dat::new(&[Lbl::Alc], vec![1])]);
    match missing.ser(Lbl::Len(0)) {
        Err(BenError::MissingTransposeLabel(v)) => assert_eq!(v, vec![Lbl::Alc]),
        _ => panic!("expected a missing transpose label"),
    }
    let plain = grps_one(vec![Dat::new(&[Lbl::Alc, Lbl::Arr], vec![1])]);
    assert!(matches!(plain.ser(Lbl::Arr), Err(BenError::UnknownLabelKind(Lbl::Arr))));
    let rows = grps_one(vec![
        Dat::new(&[Lbl::Alc, Lbl::Len(1)], vec![1]),
        Dat::new(&[Lbl::Alc, Lbl::Len(2)], vec![1, 2, 3]),
    ]);
    assert!(matches!(rows.ser(Lbl::Len(0)), Err(BenError::WrongRowCount { expected: 1, actual: 3 })));
    let none = grps_one(vec![Dat::new(&[Lbl::Alc, Lbl::Len(1)], vec![])]);
    assert!(matches!(none.ser(Lbl::Len(0)), Err(BenError::WrongRowCount { expected: 1, actual: 0 })));
    assert_eq!(Grps::<Lbl>(vec![]).ser(Lbl::Len(0)).unwrap().0.len(), 0);
}

#[test]
fn query_stages_and_errors() {
    let set = arr_vec_set();
    let mut q = query(vec![vec![Lbl::Arr]]);
    assert!(matches!(set.qry(&q, 0).unwrap(), Out::Run(r) if r.res.len() == 3));
    q.trn = Some(Lbl::Len(0));
    assert!(matches!(set.qry(&q, 0), Err(BenError::InvalidQuery)));
    q.trn = None;
    q.cmp = true;
    assert!(matches!(set.qry(&q, 0), Err(BenError::InvalidQuery)));
    q.cmp = false;
    q.itr = 0;
    assert!(matches!(set.qry(&q, 0), Err(BenError::InvalidQuery)));
    q.itr = 2;
    q.grp = Some(vec![vec![Lbl::Arr, Lbl::Len(32)]]);
    assert!(matches!(set.qry(&q, 0).unwrap(), Out::Grps(g) if g.0.len() == 1 && g.0[0].dats.len() == 1));
    q.sta = Some(Sta::Min);
    q.trn = Some(Lbl::Len(0));
    assert!(matches!(set.qry(&q, 0).unwrap(), Out::Sers(s) if s.0.len() == 2));
    q.cmp = true;
    assert!(matches!(set.qry(&q, 0), Err(BenError::InsufficientSeries)));
    let none = query(vec![vec![Lbl::Mat]]);
    assert!(matches!(set.qry(&none, 0).unwrap(), Out::NoMatch));
}

#[test]
fn stats_of_samples() {
    let d = Dat::new(&[Lbl::Raw], vec![5, 1, 3, 2]);
    assert_eq!(d.srt(), vec![1, 2, 3, 5]);
    assert_eq!(d.mdn(), 3);
    assert_eq!(d.min(), 1);
    assert_eq!(d.max(), 5);
    assert_eq!(d.avg(), 2);
    let big = Dat::new(&[Lbl::Raw], vec![u64::MAX, u64::MAX, 1]);
    assert_eq!(big.avg(), 12297829382473034410);
    let one = Dat::new(&[Lbl::Raw], vec![7]);
    assert_eq!(one.mdn(), 7);
    assert_eq!(reduce(vec![4, 9, 6], &Some(Sta::Mdn)), vec![6]);
    assert_eq!(reduce(vec![4, 9, 6], &Some(Sta::Avg)), vec![6]);
    assert_eq!(reduce(vec![4, 9, 6], &None), vec![4, 9, 6]);
    assert_eq!(Sta::default(), Sta::Mdn);
}

#[test]
fn labels_differ() {
    let d = Dat::new(&[Lbl::Vec, Lbl::Alc, Lbl::Len(4), Lbl::Rsz], vec![]);
    assert_eq!(d.lbls_dif(&[Lbl::Alc, Lbl::Len(8)]), vec![Lbl::Rsz, Lbl::Vec, Lbl::Len(4)]);
    assert_eq!(d.lbls_dif(&[Lbl::Vec, Lbl::Alc, Lbl::Len(4), Lbl::Rsz]), Vec::<Lbl>::new());
}

#[test]
fn manual_body_reports_bracketed_region() {
    let mut set: BenSet<Lbl, Body> = BenSet::new();
    set.ins(
        &[Lbl::Prm(1)],
        Box::new(|| {
            let mut t = ben::timer::Tme(0);
            let state: Vec<u32> = (0..1000).collect();
            t.start(5_000);
            let s: u32 = state.iter().take(3).sum();
            t.stop(5_000 + 40 + s as u64);
            t.0
        }),
    )
    .unwrap();
    let frm = set.frm(&vec![vec![Lbl::Prm(1)]]).unwrap();
    let run = frm.run(2, &None, &Some(Sta::Min), 3);
    assert_eq!(run.res[0].vals, vec![40]);
}

#[test]
fn result_labels_are_canonical() {
    let d = Dat::new(&[Lbl::Arr, Lbl::Alc, Lbl::Arr, Lbl::Len(4)], vec![3, 1]);
    assert_eq!(d.lbls, vec![Lbl::Alc, Lbl::Arr, Lbl::Len(4)]);
    assert_eq!(d.vals, vec![3, 1]);
}

#[test]
fn series_named_by_group_labels() {
    let grps = Grps(vec![Grp::new(
        &[Lbl::Len(0), Lbl::Arr],
        vec![Dat::new(&[Lbl::Alc, Lbl::Arr, Lbl::Len(16)], vec![7])],
    )]);
    let sers = grps.ser(Lbl::Len(0)).unwrap();
    assert_eq!(sers.0[1].name, "arr");
    assert_eq!(sers.0[0].vals, vec![16]);
}
