//! The benchmark label enumeration.

use vstd::prelude::*;
use vstd::string::StringExecFns;
use crate::label::{EnumStructVal, Label};
use crate::text::{dec, dec_string};

verus! {

/// Benchmark labels.
#[derive(Clone, Copy, Debug, PartialEq, Eq, PartialOrd, Ord, Hash, Default)]
pub enum Lbl {
    Alc,
    Arr,
    Asc,
    Cap,
    Dsc,
    Lop,
    Mat,
    Mcr,
    Mdn,
    #[default]
    Raw,
    Rd,
    Rsz,
    Ser,
    Unr,
    Vec,
    Wrt,
    Len(u32),
    Prm(u32),
}

impl Lbl {
    /// The position of the label's variant in the enumeration.
    pub open spec fn index(self) -> u32 {
        match self {
            Lbl::Alc => 0,
            Lbl::Arr => 1,
            Lbl::Asc => 2,
            Lbl::Cap => 3,
            Lbl::Dsc => 4,
            Lbl::Lop => 5,
            Lbl::Mat => 6,
            Lbl::Mcr => 7,
            Lbl::Mdn => 8,
            Lbl::Raw => 9,
            Lbl::Rd => 10,
            Lbl::Rsz => 11,
            Lbl::Ser => 12,
            Lbl::Unr => 13,
            Lbl::Vec => 14,
            Lbl::Wrt => 15,
            Lbl::Len(_) => 16,
            Lbl::Prm(_) => 17,
        }
    }

    /// The name of the label's variant.
    pub open spec fn name(self) -> Seq<char> {
        match self {
            Lbl::Alc => "alc"@,
            Lbl::Arr => "arr"@,
            Lbl::Asc => "asc"@,
            Lbl::Cap => "cap"@,
            Lbl::Dsc => "dsc"@,
            Lbl::Lop => "lop"@,
            Lbl::Mat => "mat"@,
            Lbl::Mcr => "mcr"@,
            Lbl::Mdn => "mdn"@,
            Lbl::Raw => "raw"@,
            Lbl::Rd => "rd"@,
            Lbl::Rsz => "rsz"@,
            Lbl::Ser => "ser"@,
            Lbl::Unr => "unr"@,
            Lbl::Vec => "vec"@,
            Lbl::Wrt => "wrt"@,
            Lbl::Len(_) => "len"@,
            Lbl::Prm(_) => "prm"@,
        }
    }

    fn name_string(&self) -> (r: String)
        ensures
            r@ == self.name(),
    {
        match self {
            Lbl::Alc => String::from_str("alc"),
            Lbl::Arr => String::from_str("arr"),
            Lbl::Asc => String::from_str("asc"),
            Lbl::Cap => String::from_str("cap"),
            Lbl::Dsc => String::from_str("dsc"),
            Lbl::Lop => String::from_str("lop"),
            Lbl::Mat => String::from_str("mat"),
            Lbl::Mcr => String::from_str("mcr"),
            Lbl::Mdn => String::from_str("mdn"),
            Lbl::Raw => String::from_str("raw"),
            Lbl::Rd => String::from_str("rd"),
            Lbl::Rsz => String::from_str("rsz"),
            Lbl::Ser => String::from_str("ser"),
            Lbl::Unr => String::from_str("unr"),
            Lbl::Vec => String::from_str("vec"),
            Lbl::Wrt => String::from_str("wrt"),
            Lbl::Len(_) => String::from_str("len"),
            Lbl::Prm(_) => String::from_str("prm"),
        }
    }
}

impl EnumStructVal for Lbl {
    open spec fn payload(&self) -> Option<u32> {
        match *self {
            Lbl::Len(x) => Some(x),
            Lbl::Prm(x) => Some(x),
            _ => None,
        }
    }

    fn val(&self) -> (r: Option<u32>) {
        match *self {
            Lbl::Len(x) => Some(x),
            Lbl::Prm(x) => Some(x),
            _ => None,
        }
    }
}

impl Label for Lbl {
    open spec fn code(&self) -> int {
        self.index() * 0x1_0000_0000 + match self.payload() {
            Some(x) => x as int,
            None => 0,
        }
    }

    open spec fn kind(&self) -> u32 {
        self.index()
    }

    open spec fn text(&self) -> Seq<char> {
        match self.payload() {
            Some(x) => self.name() + "("@ + dec(x as nat) + ")"@,
            None => self.name(),
        }
    }

    open spec fn kind_text(&self) -> Seq<char> {
        self.name()
    }

    open spec fn fallback() -> Self {
        Lbl::Raw
    }

    proof fn lemma_code_injective(a: Self, b: Self) {
        let pa: int = match a.payload() { Some(x) => x as int, None => 0 };
        let pb: int = match b.payload() { Some(x) => x as int, None => 0 };
        if a.code() == b.code() {
            assert(a.index() == b.index()) by (nonlinear_arith)
                requires
                    a.code() == a.index() * 0x1_0000_0000 + pa,
                    b.code() == b.index() * 0x1_0000_0000 + pb,
                    0 <= pa,
                    0 <= pb,
                    a.code() == b.code(),
                    pa < 0x1_0000_0000,
                    pb < 0x1_0000_0000,
            ;
        }
    }

    proof fn lemma_code_fits(a: Self) {
    }

    fn key(&self) -> (r: u64) {
        let i: u64 = match *self {
            Lbl::Alc => 0,
            Lbl::Arr => 1,
            Lbl::Asc => 2,
            Lbl::Cap => 3,
            Lbl::Dsc => 4,
            Lbl::Lop => 5,
            Lbl::Mat => 6,
            Lbl::Mcr => 7,
            Lbl::Mdn => 8,
            Lbl::Raw => 9,
            Lbl::Rd => 10,
            Lbl::Rsz => 11,
            Lbl::Ser => 12,
            Lbl::Unr => 13,
            Lbl::Vec => 14,
            Lbl::Wrt => 15,
            Lbl::Len(_) => 16,
            Lbl::Prm(_) => 17,
        };
        let p: u64 = match *self {
            Lbl::Len(x) => x as u64,
            Lbl::Prm(x) => x as u64,
            _ => 0,
        };
        i * 0x1_0000_0000 + p
    }

    fn discriminant(&self) -> (r: u32) {
        match *self {
            Lbl::Alc => 0,
            Lbl::Arr => 1,
            Lbl::Asc => 2,
            Lbl::Cap => 3,
            Lbl::Dsc => 4,
            Lbl::Lop => 5,
            Lbl::Mat => 6,
            Lbl::Mcr => 7,
            Lbl::Mdn => 8,
            Lbl::Raw => 9,
            Lbl::Rd => 10,
            Lbl::Rsz => 11,
            Lbl::Ser => 12,
            Lbl::Unr => 13,
            Lbl::Vec => 14,
            Lbl::Wrt => 15,
            Lbl::Len(_) => 16,
            Lbl::Prm(_) => 17,
        }
    }

    fn to_text(&self) -> (r: String) {
        let mut s = self.name_string();
        match self.val() {
            Some(x) => {
                s.append("(");
                let d = dec_string(x as u64);
                s.append(d.as_str());
                s.append(")");
                s
            },
            None => s,
        }
    }

    fn to_kind_text(&self) -> (r: String) {
        self.name_string()
    }

    fn fallback_label() -> (r: Self) {
        Lbl::Raw
    }
}

/// A character of the Unicode `White_Space` property.
pub open spec fn is_white_space(c: char) -> bool {
    let u = c as u32;
    ||| 0x9 <= u <= 0xd
    ||| u == 0x20
    ||| u == 0x85
    ||| u == 0xa0
    ||| u == 0x1680
    ||| 0x2000 <= u <= 0x200a
    ||| u == 0x2028
    ||| u == 0x2029
    ||| u == 0x202f
    ||| u == 0x205f
    ||| u == 0x3000
}

/// `s` without its leading white space.
pub open spec fn trim_start(s: Seq<char>) -> Seq<char>
    decreases s.len(),
{
    if s.len() > 0 && is_white_space(s[0]) {
        trim_start(s.drop_first())
    } else {
        s
    }
}

/// `s` without its trailing white space.
pub open spec fn trim_end(s: Seq<char>) -> Seq<char>
    decreases s.len(),
{
    if s.len() > 0 && is_white_space(s.last()) {
        trim_end(s.drop_last())
    } else {
        s
    }
}

/// `s` without its leading and trailing white space.
pub open spec fn trimmed(s: Seq<char>) -> Seq<char> {
    trim_end(trim_start(s))
}

/// What `str::to_lowercase` returns for the text `s`.
pub uninterp spec fn lower_of(s: Seq<char>) -> Seq<char>;

/// Relies on `str::trim`: the text without leading and trailing
/// characters of the Unicode `White_Space` property.
#[verifier::external_body]
fn trim_text(s: &str) -> (r: String)
    ensures
        r@ == trimmed(s@),
{
    String::from(s.trim())
}

/// Relies on `str::to_lowercase`: the lowercase text, which depends on the
/// text alone.
#[verifier::external_body]
fn lowercase_text(s: &str) -> (r: String)
    ensures
        r@ == lower_of(s@),
{
    s.to_lowercase()
}

/// The label a variant name stands for; a variant with a payload gets 0.
pub open spec fn label_named(name: Seq<char>) -> Option<Lbl> {
    if name == "len"@ {
        Some(Lbl::Len(0))
    } else if name == "prm"@ {
        Some(Lbl::Prm(0))
    } else if name == "alc"@ {
        Some(Lbl::Alc)
    } else if name == "arr"@ {
        Some(Lbl::Arr)
    } else if name == "asc"@ {
        Some(Lbl::Asc)
    } else if name == "cap"@ {
        Some(Lbl::Cap)
    } else if name == "dsc"@ {
        Some(Lbl::Dsc)
    } else if name == "lop"@ {
        Some(Lbl::Lop)
    } else if name == "mat"@ {
        Some(Lbl::Mat)
    } else if name == "mcr"@ {
        Some(Lbl::Mcr)
    } else if name == "mdn"@ {
        Some(Lbl::Mdn)
    } else if name == "raw"@ {
        Some(Lbl::Raw)
    } else if name == "rd"@ {
        Some(Lbl::Rd)
    } else if name == "rsz"@ {
        Some(Lbl::Rsz)
    } else if name == "ser"@ {
        Some(Lbl::Ser)
    } else if name == "unr"@ {
        Some(Lbl::Unr)
    } else if name == "vec"@ {
        Some(Lbl::Vec)
    } else if name == "wrt"@ {
        Some(Lbl::Wrt)
    } else {
        None
    }
}

fn eq_text(a: &String, b: &str) -> (r: bool)
    ensures
        r == (a@ == b@),
{
    let t = String::from_str(b);
    *a == t
}

impl Lbl {
    /// Returns the label that the variant name `name` stands for.
    pub fn from_name(name: &String) -> (r: Option<Lbl>)
        ensures
            r == label_named(name@),
    {
        if eq_text(name, "len") {
            Some(Lbl::Len(0))
        } else if eq_text(name, "prm") {
            Some(Lbl::Prm(0))
    } else if eq_text(name, "alc") {
        Some(Lbl::Alc)
    } else if eq_text(name, "arr") {
        Some(Lbl::Arr)
    } else if eq_text(name, "asc") {
        Some(Lbl::Asc)
    } else if eq_text(name, "cap") {
        Some(Lbl::Cap)
    } else if eq_text(name, "dsc") {
        Some(Lbl::Dsc)
    } else if eq_text(name, "lop") {
        Some(Lbl::Lop)
    } else if eq_text(name, "mat") {
        Some(Lbl::Mat)
    } else if eq_text(name, "mcr") {
        Some(Lbl::Mcr)
    } else if eq_text(name, "mdn") {
        Some(Lbl::Mdn)
    } else if eq_text(name, "raw") {
        Some(Lbl::Raw)
    } else if eq_text(name, "rd") {
        Some(Lbl::Rd)
    } else if eq_text(name, "rsz") {
        Some(Lbl::Rsz)
    } else if eq_text(name, "ser") {
        Some(Lbl::Ser)
    } else if eq_text(name, "unr") {
        Some(Lbl::Unr)
    } else if eq_text(name, "vec") {
        Some(Lbl::Vec)
    } else if eq_text(name, "wrt") {
        Some(Lbl::Wrt)
        } else {
            None
        }
    }

    /// Parses a label from its variant name, ignoring surrounding white
    /// space and case.
    pub fn from_str(s: &str) -> (r: Option<Lbl>)
        ensures
            r == label_named(lower_of(trimmed(s@))),
    {
        let t = trim_text(s);
        let l = lowercase_text(t.as_str());
        Lbl::from_name(&l)
    }
}

/// Returns the names of all label variants, plain ones first.
pub fn lbl_strs_all() -> (r: Vec<&'static str>)
    ensures
        r@.len() == 18,
        forall|i: int| 0 <= i < 16 ==> r@[i] == lbl_strs_plain_spec()[i],
        forall|i: int| 0 <= i < 2 ==> r@[16 + i] == lbl_strs_struct_u32_spec()[i],
{
    let mut r = lbl_strs_plain();
    let s = lbl_strs_struct_u32();
    r.push(s[0]);
    r.push(s[1]);
    r
}

/// The names of the plain label variants.
pub open spec fn lbl_strs_plain_spec() -> Seq<&'static str> {
    seq!["alc", "arr", "asc", "cap", "dsc", "lop", "mat", "mcr", "mdn", "raw", "rd", "rsz", "ser", "unr", "vec", "wrt"]
}

/// The names of the label variants that carry a `u32`.
pub open spec fn lbl_strs_struct_u32_spec() -> Seq<&'static str> {
    seq!["len", "prm"]
}

/// Returns the names of the plain label variants.
pub fn lbl_strs_plain() -> (r: Vec<&'static str>)
    ensures
        r@ == lbl_strs_plain_spec(),
{
    let r = vec!["alc", "arr", "asc", "cap", "dsc", "lop", "mat", "mcr", "mdn", "raw", "rd", "rsz", "ser", "unr", "vec", "wrt"];
    assert(r@ =~= lbl_strs_plain_spec());
    r
}

/// Returns the names of the label variants that carry a `u32`.
pub fn lbl_strs_struct_u32() -> (r: Vec<&'static str>)
    ensures
        r@ == lbl_strs_struct_u32_spec(),
{
    let r = vec!["len", "prm"];
    assert(r@ =~= lbl_strs_struct_u32_spec());
    r
}

} // verus!
