//! Names of steps and pipelines, as shown in logs and used as metric
//! scopes, and the per-job counters of a step.

use crate::fmt::{decimal, push_decimal};
use vstd::prelude::*;

verus! {

/// The characters that separate the type names composing a type name.
pub open spec fn is_delim(c: char) -> bool {
    c == '<' || c == '>' || c == '(' || c == ')' || c == '[' || c == ']' || c == ',' || c == ';'
}

/// The last component of a path: what follows its last `:`.
pub open spec fn last_component(p: Seq<char>) -> Seq<char>
    decreases p.len(),
{
    if p.len() == 0 {
        p
    } else if p.last() == ':' {
        Seq::empty()
    } else {
        last_component(p.drop_last()).push(p.last())
    }
}

/// The index of the first separator of `s` at or after `from`; the length
/// of `s` when there is none.
pub open spec fn first_delim(s: Seq<char>, from: int) -> int
    decreases s.len() - from,
{
    if from >= s.len() {
        s.len() as int
    } else if is_delim(s[from]) {
        from
    } else {
        first_delim(s, from + 1)
    }
}

/// The short form of the type name `s` from index `from` on: each path is
/// shortened to its last component, separators are kept, and a comma or
/// semicolon is followed by one space in place of the character after it.
pub open spec fn short_from(s: Seq<char>, from: int) -> Seq<char>
    decreases s.len() + 2 - from,
{
    if from < 0 || from >= s.len() {
        Seq::empty()
    } else {
        let k = first_delim(s, from);
        if k >= s.len() || k < from {
            last_component(s.subrange(from, s.len() as int))
        } else {
            let head = last_component(s.subrange(from, k)).push(s[k]);
            if s[k] == ',' || s[k] == ';' {
                head.push(' ') + short_from(s, k + 2)
            } else {
                head + short_from(s, k + 1)
            }
        }
    }
}

/// Whether shortening `s` from `from` on can proceed: each comma or
/// semicolon met as a separator is followed by a one-byte character.
pub open spec fn short_ok(s: Seq<char>, from: int) -> bool
    decreases s.len() + 2 - from,
{
    if from < 0 || from >= s.len() {
        true
    } else {
        let k = first_delim(s, from);
        if k >= s.len() || k < from {
            true
        } else if s[k] == ',' || s[k] == ';' {
            k + 1 < s.len() && (s[k + 1] as u32) < 128 && short_ok(s, k + 2)
        } else {
            short_ok(s, k + 1)
        }
    }
}

proof fn lemma_first_delim_range(s: Seq<char>, from: int)
    requires
        0 <= from <= s.len(),
    ensures
        from <= first_delim(s, from) <= s.len(),
        forall|j: int| from <= j < first_delim(s, from) ==> !is_delim(#[trigger] s[j]),
        first_delim(s, from) < s.len() ==> is_delim(s[first_delim(s, from)]),
    decreases s.len() - from,
{
    if from < s.len() && !is_delim(s[from]) {
        lemma_first_delim_range(s, from + 1);
    }
}

/// Appends the last component of `s[lo..hi]` to `out`.
fn push_last_component(out: &mut String, s: &str, lo: usize, hi: usize)
    requires
        lo <= hi <= s@.len(),
    ensures
        final(out)@ == old(out)@ + last_component(s@.subrange(lo as int, hi as int)),
{
    let mut start = hi;
    while start > lo && s.get_char(start - 1) != ':'
        invariant
            lo <= start <= hi,
            hi <= s@.len(),
            last_component(s@.subrange(lo as int, hi as int))
                == last_component(s@.subrange(lo as int, start as int)) + s@.subrange(start as int, hi as int),
        decreases start - lo,
    {
        proof {
            let p = s@.subrange(lo as int, start as int);
            assert(p.last() == s@[start - 1]);
            assert(p.drop_last() =~= s@.subrange(lo as int, start - 1));
            assert(s@.subrange(start - 1, hi as int) =~= seq![s@[start - 1]] + s@.subrange(start as int, hi as int));
            assert(last_component(p.drop_last()).push(p.last()) + s@.subrange(start as int, hi as int)
                =~= last_component(p.drop_last()) + s@.subrange(start - 1, hi as int));
        }
        start = start - 1;
    }
    proof {
        let p = s@.subrange(lo as int, start as int);
        if start > lo {
            assert(p.last() == s@[start - 1]);
        }
        assert(last_component(p) =~= Seq::<char>::empty());
        assert(Seq::<char>::empty() + s@.subrange(start as int, hi as int) =~= s@.subrange(start as int, hi as int));
    }
    let part = s.substring_char(start, hi);
    out.append(part);
}

/// The short form of a full type name: every path in it is reduced to its
/// last component, as in `Vec<String>` for
/// `alloc::vec::Vec<alloc::string::String>`.
pub fn short_type_name(full_name: &str) -> (r: String)
    requires
        short_ok(full_name@, 0),
    ensures
        r@ == short_from(full_name@, 0),
        short_ok(r@, 0),
{
    let n = full_name.unicode_len();
    let mut out = String::new();
    let mut from: usize = 0;
    proof {
        reveal_strlit(" ");
    }
    while from < n
        invariant
            n == full_name@.len(),
            from <= n + 1,
            short_ok(full_name@, from as int),
            out@ + short_from(full_name@, from as int) == short_from(full_name@, 0),
        decreases n + 1 - from,
    {
        let ghost s = full_name@;
        let mut k = from;
        proof {
            lemma_first_delim_range(s, from as int);
        }
        while k < n && !is_delim_char(full_name.get_char(k))
            invariant
                n == s.len(),
                s == full_name@,
                from <= k <= n,
                first_delim(s, from as int) == first_delim(s, k as int),
            decreases n - k,
        {
            k = k + 1;
        }
        proof {
            lemma_first_delim_range(s, k as int);
        }
        let ghost before = out@;
        if k >= n {
            push_last_component(&mut out, full_name, from, n);
            proof {
                assert(short_from(s, n as int) =~= Seq::<char>::empty());
                assert(out@ + short_from(s, n as int) =~= before + short_from(s, from as int));
            }
            from = n;
        } else {
            push_last_component(&mut out, full_name, from, k);
            let c = full_name.get_char(k);
            let sep = full_name.substring_char(k, k + 1);
            assert(sep@ =~= seq![c]);
            out.append(sep);
            if c == ',' || c == ';' {
                out.append(" ");
                proof {
                    reveal_strlit(" ");
                    let head = last_component(s.subrange(from as int, k as int)).push(s[k as int]);
                    assert(out@ =~= before + head.push(' '));
                    assert(before + head.push(' ') + short_from(s, k + 2) =~= before + (head.push(' ') + short_from(s, k + 2)));
                }
                from = k + 2;
            } else {
                proof {
                    let head = last_component(s.subrange(from as int, k as int)).push(s[k as int]);
                    assert(out@ =~= before + head);
                    assert(before + head + short_from(s, k + 1) =~= before + (head + short_from(s, k + 1)));
                }
                from = k + 1;
            }
        }
    }
    proof {
        assert(short_from(full_name@, from as int) =~= Seq::<char>::empty());
        assert(out@ + Seq::<char>::empty() =~= out@);
        lemma_short_type_name_laws(full_name@);
    }
    out
}

fn is_delim_char(c: char) -> (r: bool)
    ensures
        r == is_delim(c),
{
    c == '<' || c == '>' || c == '(' || c == ')' || c == '[' || c == ']' || c == ',' || c == ';'
}

/// The name of a step: its short type name, and the metric scope name that
/// it is given once, when its pipeline becomes a service.
#[derive(Debug)]
pub struct Name {
    pretty: String,
    metrics: Option<String>,
}

impl Name {
    /// The short type name.
    pub closed spec fn spec_pretty(&self) -> Seq<char> {
        self.pretty@
    }

    /// The metric scope name, once initialized.
    pub closed spec fn spec_metric(&self) -> Option<Seq<char>> {
        match self.metrics {
            Some(m) => Some(m@),
            None => None,
        }
    }

    /// The name of a step whose type has the full name `full_name`.
    pub fn new(full_name: &str) -> (r: Self)
        requires
            short_ok(full_name@, 0),
        ensures
            r.spec_pretty() == short_from(full_name@, 0),
            r.spec_metric() is None,
    {
        Name { pretty: short_type_name(full_name), metrics: None }
    }

    /// The short type name of the step.
    pub fn pretty(&self) -> (r: &str)
        ensures
            r@ == self.spec_pretty(),
    {
        self.pretty.as_str()
    }

    /// The metric scope name; it must have been initialized.
    pub fn metric(&self) -> (r: &str)
        requires
            self.spec_metric() is Some,
        ensures
            Some(r@) == self.spec_metric(),
    {
        match &self.metrics {
            Some(m) => m.as_str(),
            None => "",
        }
    }

    /// Sets the metric scope name; it may be set once.
    pub fn init_metrics(&mut self, name: &str)
        requires
            old(self).spec_metric() is None,
        ensures
            final(self).spec_metric() == Some(name@),
            final(self).spec_pretty() == old(self).spec_pretty(),
    {
        self.metrics = Some(name.to_string());
    }

    /// Whether the metric scope name is set.
    pub fn has_metrics(&self) -> (r: bool)
        ensures
            r == self.spec_metric() is Some,
    {
        self.metrics.is_some()
    }

    /// Whether this is the name `other`.
    pub fn is(&self, other: &str) -> (r: bool)
        ensures
            r == (self.spec_pretty() == other@),
    {
        let mine = self.pretty.clone();
        let theirs = other.to_string();
        mine == theirs
    }
}

/// The counters of a step for one payload job: how many times it ran and
/// for how long, in microseconds. They wrap around on overflow.
#[derive(Debug, Clone, Copy, Default)]
pub struct PerJobCounters {
    /// The number of times the step ran during the job.
    pub invoked: u32,
    /// The time spent running the step during the job, in microseconds.
    pub exec_duration_micros: u64,
}

impl PerJobCounters {
    /// Clears the counters, at the end of a payload job.
    pub fn reset(&mut self)
        ensures
            final(self).invoked == 0,
            final(self).exec_duration_micros == 0,
    {
        self.invoked = 0;
        self.exec_duration_micros = 0;
    }

    /// Adds a run's duration, in microseconds, keeping its low 64 bits.
    pub fn increment_exec_time(&mut self, duration_micros: u128)
        ensures
            final(self).exec_duration_micros == (old(self).exec_duration_micros + duration_micros % 0x1_0000_0000_0000_0000) % 0x1_0000_0000_0000_0000,
            final(self).invoked == old(self).invoked,
    {
        let low = (duration_micros % 0x1_0000_0000_0000_0000) as u64;
        let sum = self.exec_duration_micros as u128 + low as u128;
        self.exec_duration_micros = (sum % 0x1_0000_0000_0000_0000) as u64;
    }

    /// Counts one more run.
    pub fn increment_invocation(&mut self)
        ensures
            final(self).invoked == (old(self).invoked + 1) % 0x1_0000_0000,
            final(self).exec_duration_micros == old(self).exec_duration_micros,
    {
        let sum = self.invoked as u64 + 1;
        self.invoked = (sum % 0x1_0000_0000) as u32;
    }

    /// The time spent during the job, in microseconds.
    pub fn exec_duration(&self) -> (r: u64)
        ensures
            r == self.exec_duration_micros,
    {
        self.exec_duration_micros
    }

    /// The number of runs during the job.
    pub fn invoked_count(&self) -> (r: u32)
        ensures
            r == self.invoked,
    {
        self.invoked
    }
}

/// The file name of a path: what follows its last `/`.
pub open spec fn file_name(p: Seq<char>) -> Seq<char>
    decreases p.len(),
{
    if p.len() == 0 {
        p
    } else if p.last() == '/' {
        Seq::empty()
    } else {
        file_name(p.drop_last()).push(p.last())
    }
}

/// `s` without every trailing `.rs`.
pub open spec fn trim_rs(s: Seq<char>) -> Seq<char>
    decreases s.len(),
{
    if s.len() >= 3 && s.subrange(s.len() - 3, s.len() as int) == seq!['.', 'r', 's'] {
        trim_rs(s.subrange(0, s.len() - 3))
    } else {
        s
    }
}

/// The name given to a pipeline defined without one: the name of its
/// source file without the `.rs` extension, and the line, as in
/// `main_42`.
pub fn auto_pipeline_name(file: &str, line: u32) -> (r: String)
    requires
        file_name(file@).len() > 0,
        file_name(file@) != seq!['.', '.'],
        file_name(file@) != seq!['.'],
    ensures
        r@ == trim_rs(file_name(file@)) + seq!['_'] + decimal(line as nat),
{
    let n = file.unicode_len();
    let mut start = n;
    assert(file@.subrange(0, n as int) =~= file@);
    assert(file_name(file@) + file@.subrange(n as int, n as int) =~= file_name(file@));
    while start > 0 && file.get_char(start - 1) != '/'
        invariant
            start <= n,
            n == file@.len(),
            file_name(file@) == file_name(file@.subrange(0, start as int)) + file@.subrange(start as int, n as int),
        decreases start,
    {
        proof {
            let p = file@.subrange(0, start as int);
            assert(p.last() == file@[start - 1]);
            assert(p.drop_last() =~= file@.subrange(0, start - 1));
            assert(file_name(p.drop_last()).push(p.last()) + file@.subrange(start as int, n as int)
                =~= file_name(p.drop_last()) + file@.subrange(start - 1, n as int));
        }
        start = start - 1;
    }
    proof {
        let p = file@.subrange(0, start as int);
        if start > 0 {
            assert(p.last() == file@[start - 1]);
        }
        assert(file_name(p) =~= Seq::<char>::empty());
        assert(file_name(file@) =~= file@.subrange(start as int, n as int));
    }
    let mut end = n;
    while end - start >= 3 && file.get_char(end - 3) == '.' && file.get_char(end - 2) == 'r' && file.get_char(end - 1) == 's'
        invariant
            start <= end <= n,
            n == file@.len(),
            trim_rs(file_name(file@)) == trim_rs(file@.subrange(start as int, end as int)),
        decreases end,
    {
        proof {
            let s = file@.subrange(start as int, end as int);
            assert(s.subrange(s.len() - 3, s.len() as int) =~= seq!['.', 'r', 's']);
            assert(s.subrange(0, s.len() - 3) =~= file@.subrange(start as int, end - 3));
        }
        end = end - 3;
    }
    proof {
        let s = file@.subrange(start as int, end as int);
        if s.len() >= 3 {
            if s.subrange(s.len() - 3, s.len() as int) == seq!['.', 'r', 's'] {
                assert(s[s.len() - 3] == '.');
                assert(s[s.len() - 2] == 'r');
                assert(s[s.len() - 1] == 's');
            }
        }
    }
    let mut out = String::new();
    out.append(file.substring_char(start, end));
    out.append("_");
    proof {
        reveal_strlit("_");
    }
    push_decimal(&mut out, line as u128);
    out
}

/// No character of `x` is a `:`.
pub open spec fn no_colon(x: Seq<char>) -> bool {
    forall|j: int| 0 <= j < x.len() ==> #[trigger] x[j] != ':'
}

/// No character of `x` is a separator.
pub open spec fn no_delim(x: Seq<char>) -> bool {
    forall|j: int| 0 <= j < x.len() ==> !is_delim(#[trigger] x[j])
}

/// Every comma and semicolon of `x` is followed by a space.
pub open spec fn spaced(x: Seq<char>) -> bool {
    forall|j: int| 0 <= j < x.len() && (#[trigger] x[j] == ',' || x[j] == ';') ==> j + 1 < x.len() && x[j + 1] == ' '
}

/// The separators of `x`, in order.
pub open spec fn delims_of(x: Seq<char>) -> Seq<char>
    decreases x.len(),
{
    if x.len() == 0 {
        Seq::empty()
    } else if is_delim(x.last()) {
        delims_of(x.drop_last()).push(x.last())
    } else {
        delims_of(x.drop_last())
    }
}

proof fn lemma_delims_concat(a: Seq<char>, b: Seq<char>)
    ensures
        delims_of(a + b) == delims_of(a) + delims_of(b),
    decreases b.len(),
{
    if b.len() == 0 {
        assert(a + b =~= a);
        assert(delims_of(a) + delims_of(b) =~= delims_of(a));
    } else {
        lemma_delims_concat(a, b.drop_last());
        assert((a + b).drop_last() =~= a + b.drop_last());
        assert((a + b).last() == b.last());
        if is_delim(b.last()) {
            assert(delims_of(a) + delims_of(b.drop_last()).push(b.last())
                =~= (delims_of(a) + delims_of(b.drop_last())).push(b.last()));
        }
    }
}

proof fn lemma_no_delim_none(x: Seq<char>)
    requires
        no_delim(x),
    ensures
        delims_of(x) == Seq::<char>::empty(),
    decreases x.len(),
{
    if x.len() > 0 {
        assert(!is_delim(x[x.len() - 1]));
        lemma_no_delim_none(x.drop_last());
    }
}

proof fn lemma_last_component_suffix(p: Seq<char>)
    ensures
        last_component(p).len() <= p.len(),
        last_component(p) == p.subrange(p.len() - last_component(p).len(), p.len() as int),
        no_colon(last_component(p)),
        no_colon(p) ==> last_component(p) == p,
    decreases p.len(),
{
    if p.len() == 0 {
        assert(p.subrange(0, 0) =~= p);
    } else if p.last() == ':' {
        assert(p.subrange(p.len() as int, p.len() as int) =~= Seq::<char>::empty());
        assert(p[p.len() - 1] == ':');
    } else {
        lemma_last_component_suffix(p.drop_last());
        let l = last_component(p.drop_last());
        assert(l.push(p.last()) =~= p.subrange(p.len() - l.len() - 1, p.len() as int));
        if no_colon(p) {
            assert(no_colon(p.drop_last()));
            assert(p.drop_last().push(p.last()) =~= p);
        }
    }
}

proof fn lemma_first_delim_shift(a: Seq<char>, t: Seq<char>, i: int)
    requires
        0 <= i <= t.len(),
    ensures
        first_delim(a + t, a.len() + i) == a.len() + first_delim(t, i),
    decreases t.len() - i,
{
    if i < t.len() {
        assert((a + t)[a.len() + i] == t[i]);
        if !is_delim(t[i]) {
            lemma_first_delim_shift(a, t, i + 1);
        }
    }
}

proof fn lemma_short_shift(a: Seq<char>, t: Seq<char>, i: int)
    requires
        0 <= i,
    ensures
        short_from(a + t, a.len() + i) == short_from(t, i),
    decreases t.len() + 2 - i,
{
    let s = a + t;
    if i < t.len() {
        lemma_first_delim_shift(a, t, i);
        lemma_first_delim_range(t, i);
        let k = first_delim(t, i);
        if k >= t.len() {
            assert(s.subrange(a.len() + i, s.len() as int) =~= t.subrange(i, t.len() as int));
        } else {
            assert(s.subrange(a.len() + i, a.len() + k) =~= t.subrange(i, k));
            assert(s[a.len() + k] == t[k]);
            if t[k] == ',' || t[k] == ';' {
                lemma_short_shift(a, t, k + 2);
            } else {
                lemma_short_shift(a, t, k + 1);
            }
        }
    }
}

proof fn lemma_short_ok_shift(a: Seq<char>, t: Seq<char>, i: int)
    requires
        0 <= i,
    ensures
        short_ok(a + t, a.len() + i) == short_ok(t, i),
    decreases t.len() + 2 - i,
{
    let s = a + t;
    if i < t.len() {
        lemma_first_delim_shift(a, t, i);
        lemma_first_delim_range(t, i);
        let k = first_delim(t, i);
        if k < t.len() {
            assert(s[a.len() + k] == t[k]);
            if k + 1 < t.len() {
                assert(s[a.len() + k + 1] == t[k + 1]);
            }
            if t[k] == ',' || t[k] == ';' {
                lemma_short_ok_shift(a, t, k + 2);
            } else {
                lemma_short_ok_shift(a, t, k + 1);
            }
        }
    }
}

/// Shortening a name that holds no separator and no `:` gives it back.
proof fn lemma_short_plain(x: Seq<char>)
    requires
        no_delim(x),
        no_colon(x),
    ensures
        short_from(x, 0) == x,
{
    if x.len() > 0 {
        lemma_first_delim_range(x, 0);
        assert(x.subrange(0, x.len() as int) =~= x);
        lemma_last_component_suffix(x);
    }
}

proof fn lemma_short_from_laws(s: Seq<char>, from: int)
    requires
        0 <= from,
    ensures
        no_colon(short_from(s, from)),
        short_from(short_from(s, from), 0) == short_from(s, from),
        short_ok(short_from(s, from), 0),
        spaced(s) && from <= s.len() ==> delims_of(short_from(s, from)) == delims_of(s.subrange(from, s.len() as int)),
    decreases s.len() + 2 - from,
{
    let r = short_from(s, from);
    if from >= s.len() {
        if from == s.len() {
            assert(s.subrange(from, s.len() as int) =~= Seq::<char>::empty());
        }
        return;
    }
    lemma_first_delim_range(s, from);
    let k = first_delim(s, from);
    if k >= s.len() {
        let seg = s.subrange(from, s.len() as int);
        lemma_last_component_suffix(seg);
        let l = last_component(seg);
        assert(no_delim(l)) by {
            assert forall|j: int| 0 <= j < l.len() implies !is_delim(#[trigger] l[j]) by {
                assert(l[j] == seg[seg.len() - l.len() + j]);
                assert(seg[seg.len() - l.len() + j] == s[from + seg.len() - l.len() + j]);
            }
        }
        lemma_short_plain(l);
        if l.len() > 0 {
            lemma_first_delim_range(l, 0);
        }
        assert(no_delim(seg)) by {
            assert forall|j: int| 0 <= j < seg.len() implies !is_delim(#[trigger] seg[j]) by {
                assert(seg[j] == s[from + j]);
            }
        }
        lemma_no_delim_none(l);
        lemma_no_delim_none(seg);
    } else {
        let seg = s.subrange(from, k);
        lemma_last_component_suffix(seg);
        let l = last_component(seg);
        assert(no_delim(l)) by {
            assert forall|j: int| 0 <= j < l.len() implies !is_delim(#[trigger] l[j]) by {
                assert(l[j] == seg[seg.len() - l.len() + j]);
                assert(seg[seg.len() - l.len() + j] == s[from + seg.len() - l.len() + j]);
            }
        }
        let d = s[k];
        let comma = d == ',' || d == ';';
        let next = if comma { k + 2 } else { k + 1 };
        let head = if comma { l.push(d).push(' ') } else { l.push(d) };
        let rest = short_from(s, next);
        assert(r == head + rest);
        lemma_short_from_laws(s, next);
        // no `:` in the result
        assert forall|j: int| 0 <= j < r.len() implies #[trigger] r[j] != ':' by {
            if j < l.len() {
                assert(r[j] == l[j]);
            } else if j >= head.len() {
                assert(r[j] == rest[j - head.len()]);
            }
        }
        // the result is its own short form
        lemma_first_delim_range(r, 0);
        let k2 = first_delim(r, 0);
        assert(r[l.len() as int] == d);
        if k2 < l.len() {
            assert(r[k2] == l[k2]);
        }
        assert(k2 == l.len());
        assert(r.subrange(0, l.len() as int) =~= l);
        lemma_last_component_suffix(l);
        lemma_short_shift(head, rest, 0);
        lemma_short_ok_shift(head, rest, 0);
        if comma {
            assert(r[l.len() + 1int] == ' ');
        }
        assert(head + rest =~= r);
        // the separators are kept
        if spaced(s) {
            lemma_delims_concat(head, rest);
            lemma_no_delim_none(l);
            lemma_delims_concat(l, seq![d]);
            assert(l.push(d) =~= l + seq![d]);
            assert(delims_of(seq![d]) =~= seq![d]) by {
                assert(seq![d].drop_last() =~= Seq::<char>::empty());
                assert(delims_of(Seq::<char>::empty()) =~= Seq::<char>::empty());
                assert(seq![d].last() == d);
                assert(is_delim(d));
                assert(Seq::<char>::empty().push(d) =~= seq![d]);
            }
            let mid = if comma { seq![d, ' '] } else { seq![d] };
            if comma {
                lemma_delims_concat(l.push(d), seq![' ']);
                assert(l.push(d).push(' ') =~= l.push(d) + seq![' ']);
                assert(delims_of(seq![' ']) =~= Seq::<char>::empty()) by {
                    assert(seq![' '].drop_last() =~= Seq::<char>::empty());
                    assert(delims_of(Seq::<char>::empty()) =~= Seq::<char>::empty());
                    assert(seq![' '].last() == ' ');
                }
                assert(s[k + 1] == ' ');
            }
            let whole = s.subrange(from, s.len() as int);
            assert(no_delim(seg)) by {
                assert forall|j: int| 0 <= j < seg.len() implies !is_delim(#[trigger] seg[j]) by {
                    assert(seg[j] == s[from + j]);
                }
            }
            lemma_no_delim_none(seg);
            assert(whole =~= seg + (mid + s.subrange(next, s.len() as int)));
            lemma_delims_concat(seg, mid + s.subrange(next, s.len() as int));
            lemma_delims_concat(mid, s.subrange(next, s.len() as int));
            if comma {
                assert(mid =~= seq![d] + seq![' ']);
                lemma_delims_concat(seq![d], seq![' ']);
            }
        }
    }
}

/// Shortening a type name leaves no `:` in it and is idempotent: a short
/// name is its own short form. When every comma and semicolon of the name is
/// followed by a space, shortening keeps the name's separators
/// (`<>()[],;`) in order.
pub proof fn lemma_short_type_name_laws(s: Seq<char>)
    ensures
        no_colon(short_from(s, 0)),
        short_from(short_from(s, 0), 0) == short_from(s, 0),
        short_ok(short_from(s, 0), 0),
        spaced(s) ==> delims_of(short_from(s, 0)) == delims_of(s),
{
    lemma_short_from_laws(s, 0);
    assert(s.subrange(0, s.len() as int) =~= s);
}

} // verus!

