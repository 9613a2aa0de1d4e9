use vstd::prelude::*;

verus! {

/// Position of the first occurrence of `c` in `s`, or `s.len()` when `c` does not occur.
pub open spec fn index_of(s: Seq<char>, c: char) -> nat
    decreases s.len(),
{
    if s.len() == 0 {
        0
    } else if s[0] == c {
        0
    } else {
        1 + index_of(s.drop_first(), c)
    }
}

/// The digits before the first period; `"0"` when there are none.
pub open spec fn integral_part(s: Seq<char>) -> Seq<char> {
    let k = index_of(s, '.');
    if k == 0 {
        seq!['0']
    } else {
        s.take(k as int)
    }
}

/// The digits between the first period and the next one (or the end); empty without a period.
pub open spec fn fractional_part(s: Seq<char>) -> Seq<char> {
    let k = index_of(s, '.');
    if k >= s.len() {
        Seq::empty()
    } else {
        let rest = s.skip(k + 1 as int);
        rest.take(index_of(rest, '.') as int)
    }
}

/// The decimal text `integral.fractional`, or `integral` alone when there is no fractional part.
pub open spec fn full_text(integral: Seq<char>, fractional: Seq<char>) -> Seq<char> {
    if fractional.len() == 0 {
        integral
    } else {
        integral + seq!['.'] + fractional
    }
}

/// Position of the first character of `s` that is not `'0'`, or `s.len()` when there is none.
pub open spec fn first_nonzero(s: Seq<char>) -> nat
    decreases s.len(),
{
    if s.len() == 0 {
        0
    } else if first_nonzero(s.drop_last()) < s.len() - 1 {
        first_nonzero(s.drop_last())
    } else if s.last() != '0' {
        (s.len() - 1) as nat
    } else {
        s.len()
    }
}

/// Length of the longest prefix of `s` that ends in a character other than `'0'`.
pub open spec fn nonzero_end(s: Seq<char>) -> nat
    decreases s.len(),
{
    if s.len() == 0 {
        0
    } else if s.last() != '0' {
        s.len()
    } else {
        nonzero_end(s.drop_last())
    }
}

/// Significant figures of a decimal number: from its first non-zero digit on.
/// Without a fractional part, trailing zeros of the integral part do not count;
/// with one, every digit after the first non-zero digit counts.
pub open spec fn sig_fig_count(integral: Seq<char>, fractional: Seq<char>) -> nat {
    if fractional.len() == 0 {
        if nonzero_end(integral) > first_nonzero(integral) {
            (nonzero_end(integral) - first_nonzero(integral)) as nat
        } else {
            0
        }
    } else {
        let all = integral + fractional;
        (all.len() - first_nonzero(all)) as nat
    }
}

pub(crate) proof fn lemma_index_of(s: Seq<char>, c: char, k: int)
    requires
        0 <= k <= s.len(),
        forall|j: int| 0 <= j < k ==> s[j] != c,
        k < s.len() ==> s[k] == c,
    ensures
        index_of(s, c) == k,
    decreases k,
{
    if k > 0 {
        assert forall|j: int| 0 <= j < k - 1 implies s.drop_first()[j] != c by {
            assert(s[j + 1] != c);
        }
        lemma_index_of(s.drop_first(), c, k - 1);
    }
}

pub(crate) proof fn lemma_index_of_bound(s: Seq<char>, c: char)
    ensures
        index_of(s, c) <= s.len(),
        index_of(s, c) < s.len() ==> s[index_of(s, c) as int] == c,
        forall|j: int| 0 <= j < index_of(s, c) ==> s[j] != c,
    decreases s.len(),
{
    if s.len() > 0 && s[0] != c {
        lemma_index_of_bound(s.drop_first(), c);
        assert forall|j: int| 0 <= j < index_of(s, c) implies s[j] != c by {
            if j > 0 {
                assert(s[j] == s.drop_first()[j - 1]);
            }
        }
    }
}

proof fn lemma_first_nonzero_bound(s: Seq<char>)
    ensures
        first_nonzero(s) <= s.len(),
    decreases s.len(),
{
    if s.len() > 0 {
        lemma_first_nonzero_bound(s.drop_last());
    }
}

proof fn lemma_nonzero_end_bound(s: Seq<char>)
    ensures
        nonzero_end(s) <= s.len(),
    decreases s.len(),
{
    if s.len() > 0 {
        lemma_nonzero_end_bound(s.drop_last());
    }
}

/// A literal without a decimal point is written back unchanged by `full_number`, so its
/// value is that of the literal's own text.
pub proof fn lemma_integer_text_kept(s: Seq<char>)
    requires
        s.len() > 0,
        forall|j: int| 0 <= j < s.len() ==> s[j] != '.',
    ensures
        full_text(integral_part(s), fractional_part(s)) == s,
{
    lemma_index_of(s, '.', s.len() as int);
    assert(s.take(s.len() as int) =~= s);
}

/// Collects the characters of a string slice.
pub(crate) fn chars_of(s: &str) -> (r: Vec<char>)
    ensures
        r@ == s@,
{
    let mut out: Vec<char> = Vec::new();
    for c in it: s.chars()
        invariant
            out@ == it.seq().take(it.index() as int),
            it.seq() == s@,
    {
        out.push(c);
    }
    out
}

/// Index of the first `'.'` in `cs` at or after `from`, or `cs.len()`.
fn find_period(cs: &Vec<char>, from: usize) -> (r: usize)
    requires
        from <= cs@.len(),
    ensures
        from <= r <= cs@.len(),
        r - from == index_of(cs@.skip(from as int), '.'),
{
    let mut i = from;
    while i < cs.len() && cs[i] != '.'
        invariant
            from <= i <= cs@.len(),
            forall|j: int| from <= j < i ==> cs@[j] != '.',
        decreases cs@.len() - i,
    {
        i += 1;
    }
    proof {
        let rest = cs@.skip(from as int);
        assert forall|j: int| 0 <= j < i - from implies rest[j] != '.' by {
            assert(rest[j] == cs@[from + j]);
        }
        lemma_index_of(rest, '.', i - from);
    }
    i
}

/// A number written in decimal, kept as the text of its integral and fractional parts.
///
/// For example, `3.14159265` has integral part `"3"` and fractional part `"14159265"`.
#[derive(Debug, Clone)]
pub struct DecimalNumber {
    pub integral: String,
    pub fractional: String,
}

impl PartialEq for DecimalNumber {
    fn eq(&self, other: &DecimalNumber) -> (r: bool) {
        self.integral == other.integral && self.fractional == other.fractional
    }
}

impl vstd::std_specs::cmp::PartialEqSpecImpl for DecimalNumber {
    open spec fn obeys_eq_spec() -> bool {
        true
    }

    open spec fn eq_spec(&self, other: &DecimalNumber) -> bool {
        self.integral@ == other.integral@ && self.fractional@ == other.fractional@
    }
}

impl DecimalNumber {
    /// The integral part is never empty.
    pub open spec fn wf(&self) -> bool {
        self.integral@.len() > 0
    }

    /// Splits `text` at its first period.
    pub fn new(text: &str) -> (r: DecimalNumber)
        ensures
            r.integral@ == integral_part(text@),
            r.fractional@ == fractional_part(text@),
            r.wf(),
    {
        let cs = chars_of(text);
        let k = find_period(&cs, 0);
        assert(cs@.skip(0) =~= text@);
        let integral = if k == 0 {
            let zero = "0";
            proof {
                reveal_strlit("0");
            }
            zero.to_owned()
        } else {
            text.substring_char(0, k).to_owned()
        };
        let fractional = if k == cs.len() {
            String::new()
        } else {
            let end = find_period(&cs, k + 1);
            assert(cs@.skip(k + 1) =~= text@.skip(k + 1));
            let f = text.substring_char(k + 1, end).to_owned();
            assert(f@ =~= text@.skip(k + 1).take(end - (k + 1)));
            f
        };
        assert(integral@ =~= integral_part(text@));
        DecimalNumber { integral, fractional }
    }

    /// The number as text: `integral.fractional`, or `integral` alone.
    pub fn full_number(&self) -> (r: String)
        ensures
            r@ == full_text(self.integral@, self.fractional@),
    {
        if self.fractional.as_str().is_empty() {
            self.integral.clone()
        } else {
            let point = ".";
            proof {
                reveal_strlit(".");
            }
            self.integral.clone().concat(point).concat(self.fractional.as_str())
        }
    }

    /// The number of significant figures.
    pub fn sig_figs(&self) -> (r: usize)
        ensures
            r == sig_fig_count(self.integral@, self.fractional@),
    {
        sig_figs_helper(self)
    }
}

/// The number of significant figures of a decimal literal.
pub fn sig_figs(number: &str) -> (r: usize)
    ensures
        r == sig_fig_count(integral_part(number@), fractional_part(number@)),
{
    let d = DecimalNumber::new(number);
    sig_figs_helper(&d)
}

/// Counts the significant figures character by character.
fn sig_figs_helper(x: &DecimalNumber) -> (r: usize)
    ensures
        r == sig_fig_count(x.integral@, x.fractional@),
{
    let integral = chars_of(x.integral.as_str());
    let fractional = chars_of(x.fractional.as_str());
    let mut start_count = false;
    let mut counter: usize = 0;
    let mut backtracking = false;
    let mut backtrack_value: usize = 0;

    let mut i: usize = 0;
    while i < integral.len()
        invariant
            integral@ == x.integral@,
            i <= integral@.len(),
            first_nonzero(integral@.take(i as int)) <= i,
            start_count == (first_nonzero(integral@.take(i as int)) < i),
            counter == i - first_nonzero(integral@.take(i as int)),
            backtrack_value <= i,
            backtracking ==> start_count && integral@[i - 1] == '0',
            start_count && i > 0 && integral@[i - 1] == '0' ==> backtracking,
            backtracking ==> backtrack_value == nonzero_end(integral@.take(i as int))
                - first_nonzero(integral@.take(i as int)),
            start_count && !backtracking ==> nonzero_end(integral@.take(i as int)) == i,
            !start_count ==> nonzero_end(integral@.take(i as int)) == 0,
        decreases integral@.len() - i,
    {
        let c = integral[i];
        let ghost p = integral@.take(i as int);
        let ghost q = integral@.take(i + 1);
        assert(q.drop_last() =~= p);
        assert(q.last() == c);
        proof {
            lemma_nonzero_end_bound(p);
        }
        if c != '0' {
            start_count = true;
        }
        if start_count {
            if c == '0' && !backtracking {
                backtrack_value = counter;
                backtracking = true;
            } else if c != '0' {
                backtrack_value += 1;
                backtracking = false;
            }
            counter += 1;
        }
        i += 1;
    }
    assert(integral@.take(i as int) =~= x.integral@);

    if fractional.len() == 0 {
        return if backtracking {
            backtrack_value
        } else {
            counter
        };
    }

    let digits = x.integral.clone().concat(x.fractional.as_str());
    let all_chars = chars_of(digits.as_str());
    let total = all_chars.len();
    assert(total == x.integral@.len() + x.fractional@.len());
    let ghost all = x.integral@ + x.fractional@;
    assert(all.take(integral@.len() as int) =~= x.integral@);
    let mut j: usize = 0;
    while j < fractional.len()
        invariant
            integral@ == x.integral@,
            fractional@ == x.fractional@,
            all == x.integral@ + x.fractional@,
            x.integral@.len() + x.fractional@.len() <= usize::MAX,
            j <= fractional@.len(),
            first_nonzero(all.take(integral@.len() + j)) <= integral@.len() + j,
            start_count == (first_nonzero(all.take(integral@.len() + j)) < integral@.len() + j),
            counter == integral@.len() + j - first_nonzero(all.take(integral@.len() + j)),
        decreases fractional@.len() - j,
    {
        let c = fractional[j];
        let ghost p = all.take(integral@.len() + j);
        let ghost q = all.take(integral@.len() + j + 1);
        assert(q.drop_last() =~= p);
        assert(q.last() == c);
        if c != '0' {
            start_count = true;
        }
        if start_count {
            counter += 1;
        }
        j += 1;
    }
    assert(all.take(integral@.len() + j) =~= all);
    counter
}

} // verus!
