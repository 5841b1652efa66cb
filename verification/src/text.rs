//! Character-level helpers shared by title validation and the persisted
//! text format: whitespace trimming, separator splitting, and decimal
//! rendering and parsing of ids. Everything is specified over `Seq<char>`.

use vstd::prelude::*;
use vstd::string::*;

verus! {

/// The whitespace characters that trimming and blank-title detection
/// recognize: space, tab, line feed and carriage return.
pub open spec fn is_space_char(c: char) -> bool {
    c == ' ' || c == '\t' || c == '\n' || c == '\r'
}

pub fn is_space(c: char) -> (r: bool)
    ensures
        r == is_space_char(c),
{
    c == ' ' || c == '\t' || c == '\n' || c == '\r'
}

/// Whether the text holds at least one non-whitespace character. A title
/// must, at every construction site.
pub open spec fn has_visible_char(t: Seq<char>) -> bool {
    exists|i: int| 0 <= i < t.len() && !is_space_char(t[i])
}

pub fn has_visible(s: &str) -> (r: bool)
    ensures
        r == has_visible_char(s@),
{
    let n = s.unicode_len();
    let mut i: usize = 0;
    while i < n
        invariant
            n == s@.len(),
            i <= n,
            forall|j: int| 0 <= j < i ==> is_space_char(s@[j]),
        decreases n - i,
    {
        if !is_space(s.get_char(i)) {
            assert(!is_space_char(s@[i as int]));
            return true;
        }
        i += 1;
    }
    false
}

/// The text with surrounding whitespace removed.
pub open spec fn spec_trim(t: Seq<char>) -> Seq<char>
    decreases t.len(),
{
    if t.len() == 0 {
        t
    } else if is_space_char(t[0]) {
        spec_trim(t.drop_first())
    } else if is_space_char(t.last()) {
        spec_trim(t.drop_last())
    } else {
        t
    }
}

pub fn trim_str(s: &str) -> (r: String)
    ensures
        r@ == spec_trim(s@),
    decreases s@.len(),
{
    let n = s.unicode_len();
    if n == 0 {
        String::new()
    } else if is_space(s.get_char(0)) {
        let rest = s.substring_char(1, n);
        proof {
            assert(rest@ =~= s@.drop_first());
        }
        trim_str(rest)
    } else if is_space(s.get_char(n - 1)) {
        let rest = s.substring_char(0, n - 1);
        proof {
            assert(rest@ =~= s@.drop_last());
        }
        trim_str(rest)
    } else {
        s.to_owned()
    }
}

/// Trimming yields the empty text exactly on all-whitespace input, and
/// keeps a visible character whenever there is one.
pub proof fn lemma_trim_blank(t: Seq<char>)
    ensures
        spec_trim(t).len() == 0 <==> !has_visible_char(t),
        has_visible_char(spec_trim(t)) <==> has_visible_char(t),
    decreases t.len(),
{
    if t.len() == 0 {
    } else if is_space_char(t[0]) {
        lemma_trim_blank(t.drop_first());
        assert(has_visible_char(t) ==> has_visible_char(t.drop_first())) by {
            if has_visible_char(t) {
                let i = choose|i: int| 0 <= i < t.len() && !is_space_char(t[i]);
                assert(i != 0);
                assert(!is_space_char(t.drop_first()[i - 1]));
            }
        }
        assert(has_visible_char(t.drop_first()) ==> has_visible_char(t)) by {
            if has_visible_char(t.drop_first()) {
                let i = choose|i: int| 0 <= i < t.drop_first().len() && !is_space_char(t.drop_first()[i]);
                assert(!is_space_char(t[i + 1]));
            }
        }
    } else if is_space_char(t.last()) {
        lemma_trim_blank(t.drop_last());
        assert(has_visible_char(t) ==> has_visible_char(t.drop_last())) by {
            if has_visible_char(t) {
                let i = choose|i: int| 0 <= i < t.len() && !is_space_char(t[i]);
                assert(i != t.len() - 1);
                assert(!is_space_char(t.drop_last()[i]));
            }
        }
        assert(has_visible_char(t.drop_last()) ==> has_visible_char(t)) by {
            if has_visible_char(t.drop_last()) {
                let i = choose|i: int|
                    0 <= i < t.drop_last().len() && !is_space_char(t.drop_last()[i]);
                assert(!is_space_char(t[i]));
            }
        }
    } else {
        assert(!is_space_char(t[0]));
        assert(has_visible_char(t));
    }
}

/// Trimming leaves text alone that neither starts nor ends in whitespace.
pub proof fn lemma_trim_noop(t: Seq<char>)
    requires
        t.len() > 0,
        !is_space_char(t[0]),
        !is_space_char(t.last()),
    ensures
        spec_trim(t) == t,
{
}

/// The segments of `t` between occurrences of `sep`: always one more
/// segment than there are separators, in order, separators dropped.
pub open spec fn spec_split(t: Seq<char>, sep: char) -> Seq<Seq<char>>
    decreases t.len(),
{
    if t.len() == 0 {
        seq![Seq::<char>::empty()]
    } else if t[0] == sep {
        seq![Seq::<char>::empty()] + spec_split(t.drop_first(), sep)
    } else {
        let rest = spec_split(t.drop_first(), sep);
        seq![seq![t[0]] + rest[0]] + rest.drop_first()
    }
}

pub proof fn lemma_split_len(t: Seq<char>, sep: char)
    ensures
        spec_split(t, sep).len() >= 1,
    decreases t.len(),
{
    if t.len() == 0 {
    } else {
        lemma_split_len(t.drop_first(), sep);
    }
}

/// The character views of a vector of strings.
pub open spec fn views_of(v: Seq<String>) -> Seq<Seq<char>> {
    v.map_values(|s: String| s@)
}

pub fn split_str(s: &str, sep: char) -> (r: Vec<String>)
    ensures
        views_of(r@) == spec_split(s@, sep),
        r@.len() >= 1,
    decreases s@.len(),
{
    proof {
        lemma_split_len(s@, sep);
    }
    let n = s.unicode_len();
    if n == 0 {
        let mut r: Vec<String> = Vec::new();
        r.push(String::new());
        proof {
            assert(views_of(r@) =~= spec_split(s@, sep));
        }
        r
    } else {
        let c = s.get_char(0);
        let rest = s.substring_char(1, n);
        proof {
            assert(rest@ =~= s@.drop_first());
        }
        let mut r = split_str(rest, sep);
        if c == sep {
            let ghost m = views_of(r@);
            r.insert(0, String::new());
            proof {
                assert(views_of(r@) =~= seq![Seq::<char>::empty()] + m);
            }
            r
        } else {
            let ghost m = views_of(r@);
            proof {
                lemma_split_len(rest@, sep);
            }
            let head = s.substring_char(0, 1);
            proof {
                assert(head@ =~= seq![s@[0]]);
            }
            let first = r.remove(0);
            let mut newfirst = head.to_owned();
            newfirst.append(first.as_str());
            r.insert(0, newfirst);
            proof {
                assert(newfirst@ == seq![s@[0]] + m[0]);
                assert(views_of(r@) =~= seq![seq![s@[0]] + m[0]] + m.drop_first());
            }
            r
        }
    }
}

/// No character of `t` is `c`.
pub open spec fn no_char(t: Seq<char>, c: char) -> bool {
    forall|i: int| 0 <= i < t.len() ==> t[i] != c
}

/// Splitting text free of the separator yields that text as the one segment.
pub proof fn lemma_split_no_sep(t: Seq<char>, sep: char)
    requires
        no_char(t, sep),
    ensures
        spec_split(t, sep) == seq![t],
    decreases t.len(),
{
    if t.len() == 0 {
        assert(spec_split(t, sep) =~~= seq![t]);
    } else {
        lemma_split_no_sep(t.drop_first(), sep);
        assert(seq![t[0]] + t.drop_first() =~= t);
        assert(spec_split(t, sep) =~~= seq![t]);
    }
}

/// Splitting `a + sep + b` peels off `a` as the first segment when `a` is
/// free of the separator.
pub proof fn lemma_split_concat(a: Seq<char>, b: Seq<char>, sep: char)
    requires
        no_char(a, sep),
    ensures
        spec_split(a + seq![sep] + b, sep) == seq![a] + spec_split(b, sep),
    decreases a.len(),
{
    let t = a + seq![sep] + b;
    if a.len() == 0 {
        assert(t[0] == sep);
        assert(t.drop_first() =~= b);
        assert(spec_split(t, sep) =~~= seq![a] + spec_split(b, sep));
    } else {
        assert(t[0] == a[0]);
        assert(t[0] != sep);
        assert(t.drop_first() =~= a.drop_first() + seq![sep] + b);
        assert(no_char(a.drop_first(), sep));
        lemma_split_concat(a.drop_first(), b, sep);
        let rest = spec_split(t.drop_first(), sep);
        lemma_split_len(b, sep);
        assert(rest == seq![a.drop_first()] + spec_split(b, sep));
        assert(rest[0] == a.drop_first());
        assert(seq![t[0]] + rest[0] =~= a);
        assert(rest.drop_first() =~= spec_split(b, sep));
        assert(spec_split(t, sep) =~~= seq![a] + spec_split(b, sep));
    }
}

pub open spec fn is_digit_char(c: char) -> bool {
    c == '0' || c == '1' || c == '2' || c == '3' || c == '4' || c == '5' || c == '6' || c == '7'
        || c == '8' || c == '9'
}

pub open spec fn digit_val(c: char) -> int {
    if c == '0' {
        0
    } else if c == '1' {
        1
    } else if c == '2' {
        2
    } else if c == '3' {
        3
    } else if c == '4' {
        4
    } else if c == '5' {
        5
    } else if c == '6' {
        6
    } else if c == '7' {
        7
    } else if c == '8' {
        8
    } else {
        9
    }
}

pub open spec fn digit_char(d: int) -> char {
    if d == 0 {
        '0'
    } else if d == 1 {
        '1'
    } else if d == 2 {
        '2'
    } else if d == 3 {
        '3'
    } else if d == 4 {
        '4'
    } else if d == 5 {
        '5'
    } else if d == 6 {
        '6'
    } else if d == 7 {
        '7'
    } else if d == 8 {
        '8'
    } else {
        '9'
    }
}

pub open spec fn all_digits(t: Seq<char>) -> bool {
    forall|i: int| 0 <= i < t.len() ==> is_digit_char(t[i])
}

/// The value of a digit string, most significant digit first.
pub open spec fn dec_val(t: Seq<char>) -> int
    decreases t.len(),
{
    if t.len() == 0 {
        0
    } else {
        dec_val(t.drop_last()) * 10 + digit_val(t.last())
    }
}

/// The canonical decimal rendering of `n`: no sign, no leading zeros.
pub open spec fn spec_dec(n: nat) -> Seq<char>
    decreases n,
{
    if n < 10 {
        seq![digit_char(n as int)]
    } else {
        spec_dec(n / 10).push(digit_char((n % 10) as int))
    }
}

pub proof fn lemma_dec_val_push(t: Seq<char>, c: char)
    ensures
        dec_val(t.push(c)) == dec_val(t) * 10 + digit_val(c),
{
    assert(t.push(c).drop_last() =~= t);
    assert(t.push(c).last() == c);
}

pub proof fn lemma_dec_val_nonneg(t: Seq<char>)
    ensures
        dec_val(t) >= 0,
    decreases t.len(),
{
    if t.len() > 0 {
        lemma_dec_val_nonneg(t.drop_last());
    }
}

/// The canonical rendering is all digits and reads back as the same value.
pub proof fn lemma_spec_dec(n: nat)
    ensures
        spec_dec(n).len() >= 1,
        all_digits(spec_dec(n)),
        dec_val(spec_dec(n)) == n,
    decreases n,
{
    if n < 10 {
        let s = seq![digit_char(n as int)];
        lemma_dec_val_push(Seq::<char>::empty(), digit_char(n as int));
        assert(s =~= Seq::<char>::empty().push(digit_char(n as int)));
        assert(is_digit_char(digit_char(n as int)));
        assert(forall|i: int| 0 <= i < s.len() ==> is_digit_char(s[i]));
    } else {
        lemma_spec_dec(n / 10);
        let d = digit_char((n % 10) as int);
        lemma_dec_val_push(spec_dec(n / 10), d);
        assert(dec_val(spec_dec(n)) == (n / 10) * 10 + (n % 10));
        let s = spec_dec(n);
        assert(forall|i: int| 0 <= i < s.len() ==> is_digit_char(s[i])) by {
            assert(forall|i: int|
                0 <= i < spec_dec(n / 10).len() ==> is_digit_char(
                    #[trigger] spec_dec(n / 10)[i],
                ));
            assert(is_digit_char(d));
            assert(forall|i: int| 0 <= i < s.len() - 1 ==> s[i] == spec_dec(n / 10)[i]);
            assert(s[s.len() - 1] == d);
        }
    }
}

/// An id field: one or more decimal digits whose value stays strictly below
/// the largest u32, so the id counter can still exceed it.
pub open spec fn valid_id_chars(t: Seq<char>) -> bool {
    t.len() >= 1 && all_digits(t) && dec_val(t) < u32::MAX as int
}

fn digit_of(c: char) -> (r: Option<u32>)
    ensures
        match r {
            Some(d) => is_digit_char(c) && d < 10 && d as int == digit_val(c),
            None => !is_digit_char(c),
        },
{
    if c == '0' {
        Some(0)
    } else if c == '1' {
        Some(1)
    } else if c == '2' {
        Some(2)
    } else if c == '3' {
        Some(3)
    } else if c == '4' {
        Some(4)
    } else if c == '5' {
        Some(5)
    } else if c == '6' {
        Some(6)
    } else if c == '7' {
        Some(7)
    } else if c == '8' {
        Some(8)
    } else if c == '9' {
        Some(9)
    } else {
        None
    }
}

/// Reads a decimal id field. `None` exactly when the field is empty, holds
/// a non-digit, or its value cannot stay below the largest u32.
pub fn parse_u32(s: &str) -> (r: Option<u32>)
    ensures
        match r {
            Some(v) => valid_id_chars(s@) && v as int == dec_val(s@),
            None => !valid_id_chars(s@),
        },
{
    let n = s.unicode_len();
    if n == 0 {
        return None;
    }
    let mut acc: u64 = 0;
    let mut big = false;
    let mut i: usize = 0;
    while i < n
        invariant
            n == s@.len(),
            i <= n,
            all_digits(s@.take(i as int)),
            !big ==> acc as int == dec_val(s@.take(i as int)) && acc < u32::MAX as u64,
            big ==> dec_val(s@.take(i as int)) >= u32::MAX as int,
        decreases n - i,
    {
        let c = s.get_char(i);
        let d = match digit_of(c) {
            Some(d) => d,
            None => {
                assert(!is_digit_char(s@[i as int]));
                assert(!all_digits(s@));
                return None;
            },
        };
        proof {
            assert(s@.take(i as int + 1) =~= s@.take(i as int).push(s@[i as int]));
            lemma_dec_val_push(s@.take(i as int), s@[i as int]);
            lemma_dec_val_nonneg(s@.take(i as int));
        }
        if big {
        } else {
            let next: u64 = acc * 10 + (d as u64);
            if next >= u32::MAX as u64 {
                big = true;
            } else {
                acc = next;
            }
        }
        i += 1;
    }
    proof {
        assert(s@.take(n as int) =~= s@);
    }
    if big {
        None
    } else {
        Some(acc as u32)
    }
}

fn digit_str(d: u32) -> (r: &'static str)
    requires
        d < 10,
    ensures
        r@ == seq![digit_char(d as int)],
{
    if d == 0 {
        proof {
            reveal_strlit("0");
            assert("0"@ =~= seq![digit_char(0)]);
        }
        "0"
    } else if d == 1 {
        proof {
            reveal_strlit("1");
            assert("1"@ =~= seq![digit_char(1)]);
        }
        "1"
    } else if d == 2 {
        proof {
            reveal_strlit("2");
            assert("2"@ =~= seq![digit_char(2)]);
        }
        "2"
    } else if d == 3 {
        proof {
            reveal_strlit("3");
            assert("3"@ =~= seq![digit_char(3)]);
        }
        "3"
    } else if d == 4 {
        proof {
            reveal_strlit("4");
            assert("4"@ =~= seq![digit_char(4)]);
        }
        "4"
    } else if d == 5 {
        proof {
            reveal_strlit("5");
            assert("5"@ =~= seq![digit_char(5)]);
        }
        "5"
    } else if d == 6 {
        proof {
            reveal_strlit("6");
            assert("6"@ =~= seq![digit_char(6)]);
        }
        "6"
    } else if d == 7 {
        proof {
            reveal_strlit("7");
            assert("7"@ =~= seq![digit_char(7)]);
        }
        "7"
    } else if d == 8 {
        proof {
            reveal_strlit("8");
            assert("8"@ =~= seq![digit_char(8)]);
        }
        "8"
    } else {
        proof {
            reveal_strlit("9");
            assert("9"@ =~= seq![digit_char(9)]);
        }
        "9"
    }
}

/// Writes `n` in decimal, matching the canonical spec rendering.
pub fn u32_to_string(n: u32) -> (r: String)
    ensures
        r@ == spec_dec(n as nat),
    decreases n,
{
    if n < 10 {
        digit_str(n).to_owned()
    } else {
        let mut r = u32_to_string(n / 10);
        r.append(digit_str(n % 10));
        proof {
            assert(spec_dec((n / 10) as nat).push(digit_char((n % 10) as int)) =~= spec_dec(
                (n / 10) as nat,
            ) + seq![digit_char((n % 10) as int)]);
        }
        r
    }
}

/// Character-for-character equality of two string slices.
pub fn str_eq(a: &str, b: &str) -> (r: bool)
    ensures
        r == (a@ == b@),
{
    let sa = a.to_owned();
    let sb = b.to_owned();
    sa == sb
}

} // verus!
