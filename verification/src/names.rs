use vstd::prelude::*;
use crate::npu_core::indices_text;
use crate::text::{
    decimal, digit_char, digit_run, digit_run_at, digit_value, digits_value, is_digit, lemma_digit_run,
    parse_u8,
};

verus! {

/// The indices of a core file name's tail: decimal numbers joined by '-',
/// each of which fits in a `u8`.
pub open spec fn index_list(s: Seq<char>) -> Option<Seq<u8>>
    decreases s.len(),
{
    let k = digit_run(s) as int;
    let v = digits_value(s.take(k));
    if k == 0 || v > 255 || k > s.len() {
        None
    } else if k == s.len() {
        Some(seq![v as u8])
    } else if s[k] == '-' {
        match index_list(s.skip(k + 1)) {
            Some(t) => Some(seq![v as u8] + t),
            None => None,
        }
    } else {
        None
    }
}

/// `o` with `acc` put before its sequence.
pub open spec fn prepend(acc: Seq<u8>, o: Option<Seq<u8>>) -> Option<Seq<u8>> {
    match o {
        Some(t) => Some(acc + t),
        None => None,
    }
}

/// Where a file name is "npu" followed by a run of digits and "pe",
/// the position just after "pe".
pub open spec fn after_pe(name: Seq<char>) -> Option<int> {
    if name.len() >= 3 && name[0] == 'n' && name[1] == 'p' && name[2] == 'u' {
        let k = digit_run(name.skip(3)) as int;
        if k > 0 && name.len() >= 3 + k + 2 && name[3 + k] == 'p' && name[3 + k + 1] == 'e' {
            Some(3 + k + 2)
        } else {
            None
        }
    } else {
        None
    }
}

/// The device index written in a file name that `after_pe` accepts.
pub open spec fn device_digits(name: Seq<char>) -> Seq<char> {
    name.subrange(3, 3 + digit_run(name.skip(3)) as int)
}

/// The processing elements named by a core's device file, such as
/// "npu0pe1" (element 1) or "npu0pe0-1" (elements 0 and 1).
pub open spec fn core_indices_of_name(name: Seq<char>) -> Option<Seq<u8>> {
    match after_pe(name) {
        Some(p) => index_list(name.skip(p)),
        None => None,
    }
}

/// What a device directory entry's name says about it: the pattern
/// "npu" digits "pe" and then anything but a line break.
pub enum DeviceFileName {
    /// The name does not follow the pattern.
    Unrelated,
    /// The name follows the pattern; the device index.
    Device(u8),
    /// The name follows the pattern, but its device index exceeds 255.
    IndexOverflow,
}

/// The spec of `classify_device_file`.
pub open spec fn device_file_name(name: Seq<char>) -> DeviceFileName {
    match after_pe(name) {
        Some(p) => if (forall|j: int| p <= j < name.len() ==> name[j] != '\n') {
            if digits_value(device_digits(name)) <= 255 {
                DeviceFileName::Device(digits_value(device_digits(name)) as u8)
            } else {
                DeviceFileName::IndexOverflow
            }
        } else {
            DeviceFileName::Unrelated
        },
        None => DeviceFileName::Unrelated,
    }
}

/// Exec counterpart of `after_pe`.
fn find_after_pe(name: &Vec<char>) -> (r: Option<usize>)
    ensures
        r matches Some(p) ==> after_pe(name@) == Some(p as int) && p <= name@.len(),
        r is None ==> after_pe(name@) is None,
{
    if name.len() >= 3 && name[0] == 'n' && name[1] == 'p' && name[2] == 'u' {
        let k = digit_run_at(name, 3);
        if k > 0 && name.len() - 3 - k >= 2 && name[3 + k] == 'p' && name[3 + k + 1] == 'e' {
            Some(3 + k + 2)
        } else {
            None
        }
    } else {
        None
    }
}

proof fn lemma_index_list_step(s: Seq<char>, pos: int, k: int)
    requires
        0 <= pos <= s.len(),
        k == digit_run(s.skip(pos)),
    ensures
        pos + k <= s.len(),
        s.skip(pos).take(k) == s.subrange(pos, pos + k),
        forall|j: int| pos <= j < pos + k ==> is_digit(#[trigger] s[j]),
        pos + k < s.len() ==> s.skip(pos).skip(k + 1) == s.skip(pos + k + 1),
        pos + k < s.len() ==> s.skip(pos)[k] == s[pos + k],
{
    lemma_digit_run(s.skip(pos));
    assert forall|j: int| pos <= j < pos + k implies is_digit(#[trigger] s[j]) by {
        assert(s[j] == s.skip(pos)[j - pos]);
    }
    assert(s.skip(pos).take(k) =~= s.subrange(pos, pos + k));
    if pos + k < s.len() {
        assert(s.skip(pos).skip(k + 1) =~= s.skip(pos + k + 1));
    }
}

/// The indices written from `start` on, as `index_list` reads them.
fn parse_index_list(s: &Vec<char>, start: usize) -> (r: Option<Vec<u8>>)
    requires
        start <= s@.len(),
    ensures
        match r {
            Some(v) => index_list(s@.skip(start as int)) == Some(v@),
            None => index_list(s@.skip(start as int)) is None,
        },
{
    let mut acc: Vec<u8> = Vec::new();
    let mut pos = start;
    assert(acc@ == Seq::<u8>::empty());
    assert(prepend(acc@, index_list(s@.skip(start as int))) == index_list(s@.skip(start as int))) by {
        match index_list(s@.skip(start as int)) {
            Some(t) => assert(acc@ + t == t),
            None => {},
        }
    }
    loop
        invariant
            start <= pos <= s@.len(),
            index_list(s@.skip(start as int)) == prepend(acc@, index_list(s@.skip(pos as int))),
        decreases s@.len() - pos,
    {
        let k = digit_run_at(s, pos);
        proof {
            lemma_index_list_step(s@, pos as int, k as int);
        }
        if k == 0 {
            return None;
        }
        let n = s.len();
        assert(pos + k <= n);
        let v = match parse_u8(s, pos, pos + k) {
            Some(v) => v,
            None => {
                return None;
            },
        };
        let ghost before = acc@;
        acc.push(v);
        if pos + k == s.len() {
            assert(acc@ == before + seq![v]);
            return Some(acc);
        }
        if s[pos + k] != '-' {
            return None;
        }
        proof {
            let rest = index_list(s@.skip(pos + k + 1));
            assert(index_list(s@.skip(pos as int)) == prepend(seq![v], rest));
            match rest {
                Some(t) => {
                    assert(before + (seq![v] + t) == acc@ + t);
                },
                None => {},
            }
        }
        pos = pos + k + 1;
    }
}

/// The processing elements named by a core's device file name.
pub fn parse_core_indices(name: &Vec<char>) -> (r: Option<Vec<u8>>)
    ensures
        match r {
            Some(v) => core_indices_of_name(name@) == Some(v@),
            None => core_indices_of_name(name@) is None,
        },
{
    match find_after_pe(name) {
        Some(p) => parse_index_list(name, p),
        None => None,
    }
}

/// Reads a device directory entry's name.
pub fn classify_device_file(name: &Vec<char>) -> (r: DeviceFileName)
    ensures
        r == device_file_name(name@),
{
    match find_after_pe(name) {
        Some(p) => {
            let mut j = p;
            while j < name.len()
                invariant
                    p <= j <= name@.len(),
                    after_pe(name@) == Some(p as int),
                    forall|i: int| p <= i < j ==> name@[i] != '\n',
                decreases name@.len() - j,
            {
                if name[j] == '\n' {
                    assert(name@[j as int] == '\n');
                    assert(!(forall|i: int| p <= i < name@.len() ==> name@[i] != '\n'));
                    return DeviceFileName::Unrelated;
                }
                j = j + 1;
            }
            let k = digit_run_at(name, 3);
            proof {
                lemma_index_list_step(name@, 3, k as int);
            }
            match parse_u8(name, 3, 3 + k) {
                Some(v) => DeviceFileName::Device(v),
                None => DeviceFileName::IndexOverflow,
            }
        },
        None => DeviceFileName::Unrelated,
    }
}


pub proof fn lemma_digit_run_concat(a: Seq<char>, b: Seq<char>)
    requires
        forall|i: int| 0 <= i < a.len() ==> is_digit(#[trigger] a[i]),
        b.len() == 0 || !is_digit(b[0]),
    ensures
        digit_run(a + b) == a.len(),
    decreases a.len(),
{
    if a.len() > 0 {
        assert((a + b).drop_first() =~= a.drop_first() + b);
        assert((a + b)[0] == a[0]);
        lemma_digit_run_concat(a.drop_first(), b);
    } else {
        assert(a + b =~= b);
    }
}

pub proof fn lemma_decimal(n: nat)
    ensures
        decimal(n).len() > 0,
        forall|i: int| 0 <= i < decimal(n).len() ==> is_digit(#[trigger] decimal(n)[i]),
        digits_value(decimal(n)) == n,
    decreases n,
{
    if n < 10 {
        assert(digit_value(digit_char(n)) == n);
        assert(decimal(n).drop_last() =~= Seq::<char>::empty());
        assert(decimal(n).last() == digit_char(n));
        assert(digits_value(decimal(n)) == digits_value(Seq::<char>::empty()) * 10 + digit_value(
            digit_char(n),
        ));
    } else {
        lemma_decimal(n / 10);
        let d = decimal(n / 10);
        assert(digit_value(digit_char(n % 10)) == n % 10);
        assert(decimal(n).drop_last() == d);
        assert(decimal(n).last() == digit_char(n % 10));
        assert(digits_value(decimal(n)) == digits_value(d) * 10 + digit_value(digit_char(n % 10)));
        assert forall|i: int| 0 <= i < decimal(n).len() implies is_digit(#[trigger] decimal(n)[i]) by {
            if i < d.len() {
                assert(decimal(n)[i] == d[i]);
            }
        }
    }
}

/// A digit string with no leading zero: "0" alone, or a first digit other than '0'.
pub open spec fn is_canonical_decimal(s: Seq<char>) -> bool {
    &&& s.len() > 0
    &&& forall|i: int| 0 <= i < s.len() ==> is_digit(#[trigger] s[i])
    &&& (s.len() == 1 || s[0] != '0')
}

proof fn lemma_digit_char_of_value(c: char)
    requires
        is_digit(c),
    ensures
        digit_value(c) < 10,
        digit_char(digit_value(c)) == c,
{
}

proof fn lemma_canonical_positive(s: Seq<char>)
    requires
        is_canonical_decimal(s),
        s.len() >= 2,
    ensures
        digits_value(s.drop_last()) > 0,
    decreases s.len(),
{
    let d = s.drop_last();
    assert(d[0] == s[0]);
    assert(is_digit(s[0]));
    if d.len() == 1 {
        assert(d.drop_last() =~= Seq::<char>::empty());
        assert(d.last() == d[0]);
        assert(digits_value(d) == digits_value(d.drop_last()) * 10 + digit_value(d.last()));
        lemma_digit_char_of_value(s[0]);
    } else {
        assert(digits_value(d) == digits_value(d.drop_last()) * 10 + digit_value(d.last()));
        assert forall|i: int| 0 <= i < d.len() implies is_digit(#[trigger] d[i]) by {
            assert(d[i] == s[i]);
        }
        lemma_canonical_positive(d);
    }
}

/// `decimal(n)` is the decimal form of `n` with no leading zero, and the only
/// such form: every digit string without a leading zero whose value is `n`
/// is `decimal(n)`.
pub proof fn lemma_decimal_canonical(n: nat, s: Seq<char>)
    ensures
        is_canonical_decimal(decimal(n)),
        digits_value(decimal(n)) == n,
        n > 0 ==> decimal(n)[0] != '0',
        is_canonical_decimal(s) && digits_value(s) == n ==> s == decimal(n),
    decreases s.len(),
{
    lemma_decimal_leading(n);
    lemma_decimal(n);
    if is_canonical_decimal(s) && digits_value(s) == n {
        let c = s.last();
        assert(is_digit(c));
        lemma_digit_char_of_value(c);
        if s.len() == 1 {
            assert(s.drop_last() =~= Seq::<char>::empty());
            assert(digits_value(s) == digit_value(c));
            assert(s =~= seq![c]);
        } else {
            let d = s.drop_last();
            lemma_canonical_positive(s);
            assert(d[0] == s[0]);
            assert forall|i: int| 0 <= i < d.len() implies is_digit(#[trigger] d[i]) by {
                assert(d[i] == s[i]);
            }
            let v = digits_value(d);
            assert(n == v * 10 + digit_value(c));
            assert(n / 10 == v && n % 10 == digit_value(c));
            lemma_decimal_canonical(v, d);
            assert(decimal(n) == decimal(n / 10).push(digit_char(n % 10)));
            assert(s =~= d.push(c));
        }
    }
}

proof fn lemma_decimal_leading(n: nat)
    ensures
        n > 0 ==> decimal(n)[0] != '0',
        decimal(n).len() == 1 || decimal(n)[0] != '0',
    decreases n,
{
    if n >= 10 {
        lemma_decimal_leading(n / 10);
        lemma_decimal(n / 10);
        assert(decimal(n)[0] == decimal(n / 10)[0]);
    }
}

proof fn lemma_indices_text_front(v: Seq<u8>)
    requires
        v.len() >= 2,
    ensures
        indices_text(v) == decimal(v[0] as nat) + seq!['-'] + indices_text(v.drop_first()),
    decreases v.len(),
{
    if v.len() > 2 {
        lemma_indices_text_front(v.drop_last());
        assert(v.drop_last()[0] == v[0]);
        assert(v.drop_last().drop_first() =~= v.drop_first().drop_last());
        assert(indices_text(v) == indices_text(v.drop_last()) + seq!['-'] + decimal(
            v.last() as nat,
        ));
        assert(v.drop_first().last() == v.last());
        assert(indices_text(v.drop_first()) == indices_text(v.drop_first().drop_last()) + seq![
            '-',
        ] + decimal(v.last() as nat));
        assert(indices_text(v) =~= decimal(v[0] as nat) + seq!['-'] + indices_text(
            v.drop_first(),
        ));
    } else {
        assert(v.drop_last() =~= seq![v[0]]);
        assert(v.drop_first() =~= seq![v[1]]);
        assert(indices_text(v.drop_last()) == decimal(v[0] as nat));
        assert(indices_text(v.drop_first()) == decimal(v[1] as nat));
        assert(v.last() == v[1]);
    }
}

/// What a core's name writes for its processing elements is read back by the
/// parser of core file names: the two agree on every non-empty index list.
pub proof fn lemma_index_list_roundtrip(v: Seq<u8>)
    requires
        v.len() > 0,
    ensures
        index_list(indices_text(v)) == Some(v),
    decreases v.len(),
{
    let d = decimal(v[0] as nat);
    lemma_decimal(v[0] as nat);
    if v.len() == 1 {
        lemma_digit_run_concat(d, Seq::<char>::empty());
        assert(d + Seq::<char>::empty() == d);
        assert(indices_text(v) == d);
        assert(d.take(d.len() as int) == d);
        assert(v =~= seq![v[0]]);
    } else {
        lemma_indices_text_front(v);
        let rest = indices_text(v.drop_first());
        let s = d + seq!['-'] + rest;
        assert(s =~= d + (seq!['-'] + rest));
        assert((seq!['-'] + rest)[0] == '-');
        lemma_digit_run_concat(d, seq!['-'] + rest);
        assert(s.take(d.len() as int) =~= d);
        assert(s[d.len() as int] == '-');
        assert(s.skip(d.len() + 1 as int) =~= rest);
        lemma_index_list_roundtrip(v.drop_first());
        assert(v =~= seq![v[0]] + v.drop_first());
    }
}


/// Every character of an index list is a digit or '-'.
pub proof fn lemma_indices_text_chars(v: Seq<u8>)
    ensures
        forall|i: int|
            0 <= i < indices_text(v).len() ==> is_digit(#[trigger] indices_text(v)[i])
                || indices_text(v)[i] == '-',
    decreases v.len(),
{
    if v.len() == 1 {
        lemma_decimal(v[0] as nat);
    } else if v.len() > 1 {
        lemma_indices_text_chars(v.drop_last());
        lemma_decimal(v.last() as nat);
        let a = indices_text(v.drop_last());
        let b = decimal(v.last() as nat);
        assert forall|i: int| 0 <= i < indices_text(v).len() implies is_digit(
            #[trigger] indices_text(v)[i],
        ) || indices_text(v)[i] == '-' by {
            if i < a.len() {
                assert(indices_text(v)[i] == a[i]);
            } else if i > a.len() {
                assert(indices_text(v)[i] == b[i - a.len() - 1]);
            }
        }
    }
}

} // verus!
