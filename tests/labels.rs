use ben::bens::{lbl_strs_all, lbl_strs_plain, lbl_strs_struct_u32, Lbl};
use ben::itr::rngs;
use ben::label::{clone_except, find, EnumStructVal, Label};
use ben::text::{fmt_num, fmt_num_text, join};

#[test]
fn label_texts() {
    assert_eq!(Lbl::Len(16).to_text(), "len(16)");
    assert_eq!(Lbl::Prm(0).to_text(), "prm(0)");
    assert_eq!(Lbl::Alc.to_text(), "alc");
    assert_eq!(Lbl::Len(16).to_kind_text(), "len");
    assert_eq!(Lbl::Rd.to_kind_text(), "rd");
    assert_eq!(Lbl::Len(7).val(), Some(7));
    assert_eq!(Lbl::Wrt.val(), None);
    assert_eq!(Lbl::fallback_label(), Lbl::Raw);
    assert!(Lbl::Alc.key() < Lbl::Arr.key());
    assert!(Lbl::Wrt.key() < Lbl::Len(0).key());
    assert!(Lbl::Len(3).key() < Lbl::Len(4).key());
    assert!(Lbl::Len(u32::MAX).key() < Lbl::Prm(0).key());
    assert_eq!(Lbl::Len(3).discriminant(), Lbl::Len(9).discriminant());
}

#[test]
fn label_parsing() {
    assert_eq!(Lbl::from_str("alc"), Some(Lbl::Alc));
    assert_eq!(Lbl::from_str("  LEN "), Some(Lbl::Len(0)));
    assert_eq!(Lbl::from_str("Prm"), Some(Lbl::Prm(0)));
    assert_eq!(Lbl::from_str("wrt\n"), Some(Lbl::Wrt));
    assert_eq!(Lbl::from_str("nope"), None);
    assert_eq!(Lbl::from_str("\u{3000}\u{a0}Cap\u{85}\t"), Some(Lbl::Cap));
    assert_eq!(Lbl::from_str("c ap"), None);
    assert_eq!(Lbl::from_name(&String::from("vec")), Some(Lbl::Vec));
    assert_eq!(Lbl::from_name(&String::from("VEC")), None);
}

#[test]
fn label_name_lists() {
    assert_eq!(lbl_strs_plain().len(), 16);
    assert_eq!(lbl_strs_struct_u32(), vec!["len", "prm"]);
    let all = lbl_strs_all();
    assert_eq!(all.len(), 18);
    assert_eq!(all[0], "alc");
    assert_eq!(all[15], "wrt");
    assert_eq!(all[17], "prm");
}

#[test]
fn find_and_clone_except() {
    let l = [Lbl::Alc, Lbl::Len(4), Lbl::Len(8)];
    assert_eq!(find(&l, Lbl::Len(0)), Some(Lbl::Len(4)));
    assert_eq!(find(&l, Lbl::Prm(0)), None);
    assert_eq!(clone_except(&l, Lbl::Len(0)), vec![Lbl::Alc, Lbl::Len(8)]);
    assert_eq!(clone_except(&l, Lbl::Rd), l.to_vec());
}

#[test]
fn join_labels() {
    let v = vec![Lbl::Alc, Lbl::Len(16), Lbl::Vec];
    assert_eq!(join(&v, None), "alc,len(16),vec");
    assert_eq!(join(&v, Some('-')), "alc-len(16)-vec");
    assert_eq!(join(&vec![Lbl::Rd], None), "rd");
    assert_eq!(join::<Lbl>(&vec![], None), "");
}

#[test]
fn number_format() {
    assert_eq!(fmt_num(0), "0");
    assert_eq!(fmt_num(999), "999");
    assert_eq!(fmt_num(1000), "1,000");
    assert_eq!(fmt_num(1234567), "1,234,567");
    assert_eq!(fmt_num(u64::MAX), "18,446,744,073,709,551,615");
}

#[test]
fn range_iteration() {
    let mut r = rngs(2, 6);
    assert_eq!(r.next(), Some((0, 3)));
    assert_eq!(r.next(), Some((3, 6)));
    assert_eq!(r.next(), None);
    assert_eq!(r.next(), None);
    let mut s = rngs(2, 7);
    assert_eq!(s.next(), Some((0, 3)));
    assert_eq!(s.next(), Some((3, 6)));
    assert_eq!(s.next(), Some((6, 7)));
    assert_eq!(s.next(), None);
    let mut z = rngs(3, 0);
    assert_eq!(z.next(), Some((0, 0)));
    assert_eq!(z.next(), None);
}

#[test]
fn label_order_matches_keys() {
    let ls = [Lbl::Alc, Lbl::Raw, Lbl::Wrt, Lbl::Len(2), Lbl::Len(10), Lbl::Prm(0)];
    for a in ls.iter() {
        for b in ls.iter() {
            assert_eq!(a < b, a.key() < b.key());
        }
    }
    assert_eq!(Lbl::default(), Lbl::fallback_label());
}

#[test]
fn number_text_format() {
    assert_eq!(fmt_num_text("-1234"), "-1,234");
    assert_eq!(fmt_num_text("1234.5"), "1,234.5");
    assert_eq!(fmt_num_text("-123"), "-123");
    assert_eq!(fmt_num_text("123"), "123");
    assert_eq!(fmt_num_text("-1234567.25"), "-1,234,567.25");
    assert_eq!(fmt_num_text("1000"), "1,000");
    assert_eq!(fmt_num_text("12.3456"), "12.3456");
    assert_eq!(fmt_num_text(""), "");
    assert_eq!(fmt_num_text(&(-987654i64).to_string()), "-987,654");
}
