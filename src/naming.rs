//! Collision-free destination names: `name.ext`, `name (1).ext`, `name (2).ext`, ...
use vstd::prelude::*;

use crate::bindings::string_of;
use crate::text::{chars_of, extension_of, join_name, split_file_name, stem_of};

verus! {

pub open spec fn is_digit(c: char) -> bool {
    '0' <= c && c <= '9'
}

/// The start of the run of digits that ends just before index `e` of `s`.
pub open spec fn digit_run_start(s: Seq<char>, e: int) -> int
    decreases e,
{
    if 0 < e <= s.len() && is_digit(s[e - 1]) {
        digit_run_start(s, e - 1)
    } else {
        e
    }
}

/// Where `stem` ends in ` (N)` with N one or more ASCII digits, the index of
/// N's first digit.
pub open spec fn counter_start(stem: Seq<char>) -> int {
    digit_run_start(stem, stem.len() - 1)
}

/// Whether `stem` ends in ` (N)`, N one or more ASCII digits.
pub open spec fn has_counter(stem: Seq<char>) -> bool {
    let j = counter_start(stem);
    &&& stem.len() >= 4
    &&& stem.last() == ')'
    &&& 2 <= j < stem.len() - 1
    &&& stem[j - 1] == '('
    &&& stem[j - 2] == ' '
}

/// The digits N of a stem that ends in ` (N)`.
pub open spec fn counter_digits(stem: Seq<char>) -> Seq<char> {
    stem.subrange(counter_start(stem), stem.len() - 1)
}

/// The number that a run of ASCII digits writes in decimal.
pub open spec fn digits_value(d: Seq<char>) -> nat
    decreases d.len(),
{
    if d.len() == 0 {
        0
    } else {
        digits_value(d.drop_last()) * 10 + (d.last() as nat - '0' as nat) as nat
    }
}

pub open spec fn digit_char(n: nat) -> char {
    ((n + '0' as nat) as u32) as char
}

/// `n` written in decimal, without leading zeros.
pub open spec fn decimal(n: nat) -> Seq<char>
    decreases n,
{
    if n < 10 {
        seq![digit_char(n)]
    } else {
        decimal(n / 10).push(digit_char(n % 10))
    }
}

/// `d` plus one, as a run of decimal digits, carried from the right; an
/// empty run counts as zero.
pub open spec fn increment_digits(d: Seq<char>) -> Seq<char>
    decreases d.len(),
{
    if d.len() == 0 {
        seq!['1']
    } else if d.last() != '9' {
        d.drop_last().push(((d.last() as u32) + 1) as char)
    } else {
        increment_digits(d.drop_last()).push('0')
    }
}

/// The stem to try after `stem` is taken: ` (N)` becomes ` (N+1)`, N+1
/// written without leading zeros; a stem without a counter gets ` (1)`.
pub open spec fn next_stem(stem: Seq<char>) -> Seq<char> {
    if has_counter(stem) {
        stem.take(counter_start(stem) - 2) + seq![' ', '('] + decimal(
            digits_value(counter_digits(stem)) + 1,
        ) + seq![')']
    } else {
        stem + seq![' ', '(', '1', ')']
    }
}

pub open spec fn all_digits(d: Seq<char>) -> bool {
    forall|i: int| 0 <= i < d.len() ==> is_digit(#[trigger] d[i])
}

proof fn lemma_digit_run_start(s: Seq<char>, e: int)
    requires
        0 <= e <= s.len(),
    ensures
        0 <= digit_run_start(s, e) <= e,
        forall|k: int| digit_run_start(s, e) <= k < e ==> is_digit(#[trigger] s[k]),
        digit_run_start(s, e) > 0 ==> !is_digit(s[digit_run_start(s, e) - 1]),
    decreases e,
{
    if 0 < e && is_digit(s[e - 1]) {
        lemma_digit_run_start(s, e - 1);
    }
}

proof fn lemma_leading_zero_adds_nothing(d: Seq<char>)
    requires
        d.len() > 0,
        d[0] == '0',
    ensures
        digits_value(d.skip(1)) == digits_value(d),
    decreases d.len(),
{
    if d.len() == 1 {
        assert(d.skip(1) =~= Seq::<char>::empty());
        assert(d.drop_last() =~= Seq::<char>::empty());
    } else {
        lemma_leading_zero_adds_nothing(d.drop_last());
        assert(d.skip(1).drop_last() =~= d.drop_last().skip(1));
    }
}

proof fn lemma_increment_digits(d: Seq<char>)
    requires
        all_digits(d),
        d.len() == 0 || d[0] != '0',
    ensures
        all_digits(increment_digits(d)),
        increment_digits(d).len() > 0,
        increment_digits(d)[0] != '0',
        digits_value(increment_digits(d)) == digits_value(d) + 1,
    decreases d.len(),
{
    let r = increment_digits(d);
    if d.len() == 0 {
        assert(r.drop_last() =~= Seq::<char>::empty());
        assert(digits_value(Seq::<char>::empty()) == 0);
    } else if d.last() != '9' {
        assert(r.drop_last() =~= d.drop_last());
        assert(is_digit(d[d.len() - 1]));
        assert(r.last() as nat == d.last() as nat + 1);
        assert(all_digits(r)) by {
            assert forall|i: int| 0 <= i < r.len() implies is_digit(#[trigger] r[i]) by {
                if i < d.len() - 1 {
                    assert(r[i] == d[i]);
                }
            }
        }
        if d.len() > 1 {
            assert(r[0] == d[0]);
        }
    } else {
        let init = d.drop_last();
        assert(all_digits(init)) by {
            assert forall|i: int| 0 <= i < init.len() implies is_digit(#[trigger] init[i]) by {
                assert(init[i] == d[i]);
            }
        }
        if init.len() > 0 {
            assert(init[0] == d[0]);
        }
        lemma_increment_digits(init);
        assert(r.drop_last() =~= increment_digits(init));
        assert(r.last() == '0');
        let vi = digits_value(init);
        assert(digits_value(r) == (vi + 1) * 10);
        assert(digits_value(d) == vi * 10 + 9);
        assert(all_digits(r)) by {
            assert forall|i: int| 0 <= i < r.len() implies is_digit(#[trigger] r[i]) by {
                if i < r.len() - 1 {
                    assert(r[i] == increment_digits(init)[i]);
                }
            }
        }
        assert(r[0] == increment_digits(init)[0]);
    }
}

proof fn lemma_value_at_least_first(d: Seq<char>)
    requires
        all_digits(d),
        d.len() > 0,
        d[0] != '0',
    ensures
        digits_value(d) >= 1,
    decreases d.len(),
{
    if d.len() == 1 {
        assert(d.drop_last() =~= Seq::<char>::empty());
        assert(digits_value(Seq::<char>::empty()) == 0);
    } else {
        let init = d.drop_last();
        assert(init[0] == d[0]);
        assert(all_digits(init)) by {
            assert forall|i: int| 0 <= i < init.len() implies is_digit(#[trigger] init[i]) by {
                assert(init[i] == d[i]);
            }
        }
        lemma_value_at_least_first(init);
    }
}

/// A run of digits without a leading zero is the decimal form of its value.
proof fn lemma_canonical_digits(d: Seq<char>)
    requires
        all_digits(d),
        d.len() > 0,
        d[0] != '0',
    ensures
        decimal(digits_value(d)) == d,
    decreases d.len(),
{
    let n = digits_value(d);
    let m = (d.last() as nat - '0' as nat) as nat;
    assert(is_digit(d[d.len() - 1]));
    assert(digit_char(m) == d.last());
    if d.len() == 1 {
        assert(d.drop_last() =~= Seq::<char>::empty());
        assert(digits_value(Seq::<char>::empty()) == 0);
        assert(n == m);
        assert(decimal(n) =~= d);
    } else {
        let init = d.drop_last();
        assert(init[0] == d[0]);
        assert(all_digits(init)) by {
            assert forall|i: int| 0 <= i < init.len() implies is_digit(#[trigger] init[i]) by {
                assert(init[i] == d[i]);
            }
        }
        lemma_canonical_digits(init);
        lemma_value_at_least_first(init);
        let v = digits_value(init);
        assert(n == v * 10 + m);
        assert(n / 10 == v && n % 10 == m);
        assert(decimal(n) == decimal(v).push(digit_char(m)));
        assert(decimal(n) =~= d);
    }
}

/// Finds the counter of `stem`: the index of its first digit, where the
/// stem ends in ` (N)`.
fn find_counter(stem: &Vec<char>) -> (r: Option<usize>)
    ensures
        r is Some <==> has_counter(stem@),
        r matches Some(j) ==> j == counter_start(stem@),
{
    let n = stem.len();
    if n < 4 || stem[n - 1] != ')' {
        return None;
    }
    let e = n - 1;
    let mut j: usize = e;
    while j > 0 && '0' <= stem[j - 1] && stem[j - 1] <= '9'
        invariant
            j <= e < stem@.len(),
            digit_run_start(stem@, e as int) == digit_run_start(stem@, j as int),
        decreases j,
    {
        j = j - 1;
    }
    proof {
        lemma_digit_run_start(stem@, e as int);
    }
    if j < 2 || j >= e || stem[j - 1] != '(' || stem[j - 2] != ' ' {
        return None;
    }
    Some(j)
}

/// Appends `increment_digits(d.take(end))` to `out`.
fn push_incremented(d: &Vec<char>, end: usize, out: &mut Vec<char>)
    requires
        end <= d@.len(),
        all_digits(d@),
    ensures
        final(out)@ == old(out)@ + increment_digits(d@.take(end as int)),
    decreases end,
{
    let ghost t = d@.take(end as int);
    if end == 0 {
        out.push('1');
        assert(final(out)@ =~= old(out)@ + increment_digits(t));
    } else if d[end - 1] != '9' {
        let ghost base = out@;
        let mut k: usize = 0;
        while k + 1 < end
            invariant
                end <= d@.len(),
                k + 1 <= end,
                out@ == base + d@.take(k as int),
            decreases end - k,
        {
            out.push(d[k]);
            assert(out@ =~= base + d@.take(k as int + 1));
            k = k + 1;
        }
        assert(is_digit(d@[end - 1]));
        let c = ((d[end - 1] as u8) + 1) as char;
        assert(c == ((t.last() as u32) + 1) as char);
        out.push(c);
        assert(t.drop_last() =~= d@.take(end as int - 1));
        assert(final(out)@ =~= old(out)@ + increment_digits(t));
    } else {
        push_incremented(d, end - 1, out);
        assert(t.drop_last() =~= d@.take(end as int - 1));
        out.push('0');
        assert(final(out)@ =~= old(out)@ + increment_digits(t));
    }
}

/// The stem to try after `stem` is found taken.
pub fn next_destination_stem(stem: &Vec<char>) -> (r: Vec<char>)
    ensures
        r@ == next_stem(stem@),
{
    let mut out: Vec<char> = Vec::new();
    match find_counter(stem) {
        Some(j) => {
            let e = stem.len() - 1;
            let ghost ds = counter_digits(stem@);
            proof {
                lemma_digit_run_start(stem@, e as int);
            }
            let mut k: usize = 0;
            while k < j - 2
                invariant
                    2 <= j < stem@.len(),
                    k <= j - 2,
                    out@ == stem@.take(k as int),
                decreases j - 2 - k,
            {
                out.push(stem[k]);
                assert(out@ =~= stem@.take(k as int + 1));
                k = k + 1;
            }
            out.push(' ');
            out.push('(');
            let mut z: usize = j;
            while z < e && stem[z] == '0'
                invariant
                    j <= z <= e,
                    e == stem@.len() - 1,
                    j == counter_start(stem@),
                    ds == stem@.subrange(j as int, e as int),
                    forall|i: int| j <= i < e ==> is_digit(#[trigger] stem@[i]),
                    digits_value(stem@.subrange(z as int, e as int)) == digits_value(ds),
                decreases e - z,
            {
                let ghost sub = stem@.subrange(z as int, e as int);
                proof {
                    lemma_leading_zero_adds_nothing(sub);
                }
                assert(sub.skip(1) =~= stem@.subrange(z as int + 1, e as int));
                z = z + 1;
            }
            let mut tail: Vec<char> = Vec::new();
            let mut k: usize = z;
            while k < e
                invariant
                    z <= k <= e < stem@.len(),
                    tail@ == stem@.subrange(z as int, k as int),
                decreases e - k,
            {
                tail.push(stem[k]);
                assert(tail@ =~= stem@.subrange(z as int, k as int + 1));
                k = k + 1;
            }
            assert(all_digits(tail@)) by {
                assert forall|i: int| 0 <= i < tail@.len() implies is_digit(#[trigger] tail@[i]) by {
                    assert(tail@[i] == stem@[z + i]);
                }
            }
            let tl = tail.len();
            push_incremented(&tail, tl, &mut out);
            proof {
                let s = tail@;
                assert(s.take(tl as int) =~= s);
                if s.len() > 0 {
                    assert(s[0] != '0');
                }
                lemma_increment_digits(s);
                lemma_canonical_digits(increment_digits(s));
            }
            out.push(')');
            assert(out@ =~= next_stem(stem@));
        },
        None => {
            let mut k: usize = 0;
            while k < stem.len()
                invariant
                    k <= stem@.len(),
                    out@ == stem@.take(k as int),
                decreases stem@.len() - k,
            {
                out.push(stem[k]);
                assert(out@ =~= stem@.take(k as int + 1));
                k = k + 1;
            }
            out.push(' ');
            out.push('(');
            out.push('1');
            out.push(')');
            assert(out@ =~= next_stem(stem@));
        },
    }
    out
}

/// The name to try after the file name `name` is found taken; the
/// extension stays as it was.
pub open spec fn next_name(name: Seq<char>) -> Seq<char> {
    join_name(next_stem(stem_of(name)), extension_of(name))
}

proof fn lemma_decimal_value(n: nat)
    ensures
        digits_value(decimal(n)) == n,
    decreases n,
{
    let m = n % 10;
    assert(digit_char(m) as nat == m + '0' as nat);
    if n >= 10 {
        lemma_decimal_value(n / 10);
        let d = decimal(n);
        assert(d.drop_last() =~= decimal(n / 10));
        assert(n == (n / 10) * 10 + m);
        assert(d.last() == digit_char(m));
    } else {
        assert(decimal(n).drop_last() =~= Seq::<char>::empty());
        assert(decimal(n).last() == digit_char(n));
        assert(digits_value(Seq::<char>::empty()) == 0);
        assert(m == n);
    }
}

/// Trying the next stem never tries the same stem again.
pub proof fn lemma_next_stem_differs(stem: Seq<char>)
    ensures
        next_stem(stem) != stem,
{
    if has_counter(stem) {
        let j = counter_start(stem);
        let v = digits_value(counter_digits(stem));
        let nd = decimal(v + 1);
        let ns = next_stem(stem);
        lemma_decimal_value(v + 1);
        if ns == stem {
            assert(nd.len() == counter_digits(stem).len());
            assert(nd =~= ns.subrange(j, ns.len() - 1));
            assert(nd =~= counter_digits(stem));
        }
    } else {
        assert(next_stem(stem).len() == stem.len() + 4);
    }
}

/// Trying the next name never tries the same name again, so each taken name
/// is followed by a different one.
pub proof fn lemma_next_name_differs(name: Seq<char>)
    ensures
        next_name(name) != name,
{
    let stem = stem_of(name);
    lemma_next_stem_differs(stem);
    crate::text::lemma_split_joins(name);
    let ns = next_stem(stem);
    if next_name(name) == name {
        match extension_of(name) {
            Some(e) => {
                assert(name =~= stem + seq!['.'] + e);
                assert(ns.len() == stem.len());
                assert(ns =~= next_name(name).take(ns.len() as int));
                assert(stem =~= name.take(stem.len() as int));
            },
            None => {
                assert(name == stem);
            },
        }
    }
}

/// A destination file name being tried: a stem and, where the source had
/// one, an extension.
pub struct DestinationName {
    stem: Vec<char>,
    extension: Option<Vec<char>>,
}

impl View for DestinationName {
    type V = (Seq<char>, Option<Seq<char>>);

    closed spec fn view(&self) -> (Seq<char>, Option<Seq<char>>) {
        (
            self.stem@,
            match self.extension {
                Some(e) => Some(e@),
                None => None,
            },
        )
    }
}

impl DestinationName {
    /// The first name to try: the source's own file name.
    pub fn from_file_name(name: &str) -> (r: DestinationName)
        ensures
            r@.0 == stem_of(name@),
            r@.1 == extension_of(name@),
            join_name(r@.0, r@.1) == name@,
    {
        let v = chars_of(name);
        let (stem, extension) = split_file_name(&v);
        proof {
            crate::text::lemma_split_joins(name@);
        }
        DestinationName { stem, extension }
    }

    /// The file name this stands for.
    pub fn file_name(&self) -> (r: String)
        ensures
            r@ == join_name(self@.0, self@.1),
    {
        let mut out: Vec<char> = self.stem.clone();
        match &self.extension {
            Some(e) => {
                out.push('.');
                let mut k: usize = 0;
                let ghost base = out@;
                while k < e.len()
                    invariant
                        k <= e@.len(),
                        out@ == base + e@.take(k as int),
                    decreases e@.len() - k,
                {
                    out.push(e[k]);
                    assert(out@ =~= base + e@.take(k as int + 1));
                    k = k + 1;
                }
                assert(e@.take(k as int) =~= e@);
            },
            None => {},
        }
        string_of(&out)
    }

    /// The name to try once this one is found taken: ` (N)` before the
    /// extension becomes ` (N+1)`, or ` (1)` is added.
    pub fn next(&self) -> (r: DestinationName)
        ensures
            r@.0 == next_stem(self@.0),
            r@.1 == self@.1,
            r@ != self@,
    {
        let stem = next_destination_stem(&self.stem);
        let extension = match &self.extension {
            Some(e) => Some(e.clone()),
            None => None,
        };
        proof {
            lemma_next_stem_differs(self@.0);
        }
        DestinationName { stem, extension }
    }
}

/// The file name to try after `name` is found taken in the target directory.
pub fn next_destination_name(name: &str) -> (r: String)
    ensures
        r@ == next_name(name@),
{
    let d = DestinationName::from_file_name(name);
    d.next().file_name()
}

} // verus!
