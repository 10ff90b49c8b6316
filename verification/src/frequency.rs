//! The frequency store: a name-to-usage-count table that biases ranking, with
//! its line-oriented on-disk text codec.

use vstd::prelude::*;

use crate::text::chars_of;

verus! {

/// The map a list of entries denotes; a later entry overrides an earlier one
/// with the same name.
pub open spec fn map_of(entries: Seq<(String, u32)>) -> Map<Seq<char>, u32>
    decreases entries.len(),
{
    if entries.len() == 0 {
        Map::empty()
    } else {
        map_of(entries.drop_last()).insert(entries.last().0@, entries.last().1)
    }
}

/// No two entries share a name.
pub open spec fn unique_names(entries: Seq<(String, u32)>) -> bool {
    forall|i: int, j: int|
        0 <= i < j < entries.len() ==> (#[trigger] entries[i]).0@ != (#[trigger] entries[j]).0@
}

pub proof fn lemma_map_of_contains(entries: Seq<(String, u32)>, n: Seq<char>)
    ensures
        map_of(entries).contains_key(n) <==> exists|i: int|
            0 <= i < entries.len() && (#[trigger] entries[i]).0@ == n,
    decreases entries.len(),
{
    if entries.len() > 0 {
        lemma_map_of_contains(entries.drop_last(), n);
        let last = entries.len() - 1;
        if entries.last().0@ == n {
            assert(entries[last].0@ == n);
        } else if map_of(entries).contains_key(n) {
            let i = choose|i: int|
                0 <= i < entries.drop_last().len() && (#[trigger] entries.drop_last()[i]).0@ == n;
            assert(entries[i].0@ == n);
        } else {
            assert forall|i: int| 0 <= i < entries.len() implies (#[trigger] entries[i]).0@
                != n by {
                if i < last {
                    assert(entries.drop_last()[i] == entries[i]);
                }
            }
        }
    }
}

pub proof fn lemma_map_of_get(entries: Seq<(String, u32)>, i: int)
    requires
        0 <= i < entries.len(),
        forall|j: int| i < j < entries.len() ==> (#[trigger] entries[j]).0@ != entries[i].0@,
    ensures
        map_of(entries).contains_key(entries[i].0@),
        map_of(entries)[entries[i].0@] == entries[i].1,
    decreases entries.len(),
{
    let last = entries.len() - 1;
    if i == last {
    } else {
        assert(entries.drop_last()[i] == entries[i]);
        assert forall|j: int| i < j < entries.drop_last().len() implies (#[trigger] entries.drop_last()[j]).0@
            != entries.drop_last()[i].0@ by {
            assert(entries.drop_last()[j] == entries[j]);
        }
        lemma_map_of_get(entries.drop_last(), i);
        assert(entries[last].0@ != entries[i].0@);
    }
}

proof fn lemma_map_of_remove(entries: Seq<(String, u32)>, i: int)
    requires
        0 <= i < entries.len(),
        unique_names(entries),
    ensures
        map_of(entries.remove(i)) =~= map_of(entries).remove(entries[i].0@),
    decreases entries.len(),
{
    let last = entries.len() - 1;
    let k = entries[i].0@;
    if i == last {
        assert(entries.remove(i) =~= entries.drop_last());
        lemma_map_of_contains(entries.drop_last(), k);
        assert forall|j: int| 0 <= j < entries.drop_last().len() implies (#[trigger] entries.drop_last()[j]).0@
            != k by {
            assert(entries.drop_last()[j] == entries[j]);
        }
        assert(!map_of(entries.drop_last()).contains_key(k));
        assert(map_of(entries).remove(k) =~= map_of(entries.drop_last()));
    } else {
        assert(entries.remove(i).drop_last() =~= entries.drop_last().remove(i));
        assert(entries.remove(i).last() == entries.last());
        assert forall|a: int, b: int|
            0 <= a < b < entries.drop_last().len() implies (#[trigger] entries.drop_last()[a]).0@
            != (#[trigger] entries.drop_last()[b]).0@ by {
            assert(entries.drop_last()[a] == entries[a]);
            assert(entries.drop_last()[b] == entries[b]);
        }
        assert(entries.drop_last()[i] == entries[i]);
        lemma_map_of_remove(entries.drop_last(), i);
        assert(entries.last().0@ != k);
        assert(map_of(entries.remove(i)) =~= map_of(entries.drop_last()).remove(k).insert(
            entries.last().0@,
            entries.last().1,
        ));
        assert(map_of(entries.drop_last()).remove(k).insert(entries.last().0@, entries.last().1)
            =~= map_of(entries.drop_last()).insert(entries.last().0@, entries.last().1).remove(k));
    }
}

/// The usage count a frequency map records for `name`: the stored count, or
/// zero when the name is absent.
pub open spec fn freq_get(m: Map<Seq<char>, u32>, name: Seq<char>) -> u32 {
    if m.contains_key(name) {
        m[name]
    } else {
        0
    }
}

/// The persisted name-to-usage-count table.
pub struct Frequency {
    entries: Vec<(String, u32)>,
}

impl View for Frequency {
    type V = Map<Seq<char>, u32>;

    closed spec fn view(&self) -> Map<Seq<char>, u32> {
        map_of(self.entries@)
    }
}

impl Frequency {
    /// Internal invariant: entry names are distinct, so each name denotes one
    /// count.
    pub closed spec fn wf(&self) -> bool {
        unique_names(self.entries@)
    }

    /// A store with no records.
    pub fn empty() -> (r: Frequency)
        ensures
            r.wf(),
            r@ == Map::<Seq<char>, u32>::empty(),
    {
        Frequency { entries: Vec::new() }
    }

    /// True when no name is recorded.
    pub fn is_empty(&self) -> (r: bool)
        requires
            self.wf(),
        ensures
            r == (self@ =~= Map::<Seq<char>, u32>::empty()),
    {
        let r = self.entries.len() == 0;
        proof {
            if r {
                assert(self@ =~= Map::<Seq<char>, u32>::empty());
            } else {
                lemma_map_of_contains(self.entries@, self.entries@.last().0@);
                assert(self.entries@[self.entries@.len() - 1].0@ == self.entries@.last().0@);
                assert(self@.contains_key(self.entries@.last().0@));
            }
        }
        r
    }

    /// The recorded names, one occurrence each.
    pub fn apps(&self) -> (r: Vec<String>)
        requires
            self.wf(),
        ensures
            forall|i: int| 0 <= i < r@.len() ==> self@.contains_key((#[trigger] r@[i])@),
            forall|n: Seq<char>| self@.contains_key(n) ==> exists|i: int|
                0 <= i < r@.len() && (#[trigger] r@[i])@ == n,
            forall|i: int, j: int| 0 <= i < j < r@.len() ==> (#[trigger] r@[i])@ != (
            #[trigger] r@[j])@,
    {
        let mut r: Vec<String> = Vec::new();
        let mut i: usize = 0;
        while i < self.entries.len()
            invariant
                self.wf(),
                i <= self.entries@.len(),
                r@.len() == i,
                forall|j: int| 0 <= j < i ==> (#[trigger] r@[j])@ == self.entries@[j].0@,
            decreases self.entries@.len() - i,
        {
            r.push(self.entries[i].0.clone());
            i = i + 1;
        }
        proof {
            assert forall|i_: int| 0 <= i_ < r@.len() implies self@.contains_key(
                (#[trigger] r@[i_])@,
            ) by {
                lemma_map_of_get(self.entries@, i_);
            }
            assert forall|n: Seq<char>| self@.contains_key(n) implies exists|i_: int|
                0 <= i_ < r@.len() && (#[trigger] r@[i_])@ == n by {
                lemma_map_of_contains(self.entries@, n);
                let i_ = choose|i_: int|
                    0 <= i_ < self.entries@.len() && (#[trigger] self.entries@[i_]).0@ == n;
                assert(r@[i_]@ == n);
            }
        }
        r
    }

    /// The recorded count for `name`, zero when absent.
    pub fn get(&self, name: &String) -> (r: u32)
        requires
            self.wf(),
        ensures
            r == freq_get(self@, name@),
    {
        let mut i: usize = 0;
        while i < self.entries.len()
            invariant
                self.wf(),
                i <= self.entries@.len(),
                forall|j: int| 0 <= j < i ==> (#[trigger] self.entries@[j]).0@ != name@,
            decreases self.entries@.len() - i,
        {
            if self.entries[i].0.eq(name) {
                proof {
                    lemma_map_of_get(self.entries@, i as int);
                }
                return self.entries[i].1;
            }
            i = i + 1;
        }
        proof {
            lemma_map_of_contains(self.entries@, name@);
        }
        0
    }

    /// Records one more use of `name`.
    pub fn increment(&mut self, name: &String)
        requires
            old(self).wf(),
            freq_get(old(self)@, name@) < u32::MAX,
        ensures
            final(self).wf(),
            final(self)@ =~= old(self)@.insert(name@, (freq_get(old(self)@, name@) + 1) as u32),
    {
        let ghost entries0 = self.entries@;
        let mut i: usize = 0;
        while i < self.entries.len()
            invariant
                self.entries@ == entries0,
                old(self)@ == map_of(entries0),
                freq_get(old(self)@, name@) < u32::MAX,
                unique_names(entries0),
                i <= entries0.len(),
                forall|j: int| 0 <= j < i ==> (#[trigger] entries0[j]).0@ != name@,
            decreases entries0.len() - i,
        {
            if self.entries[i].0.eq(name) {
                proof {
                    lemma_map_of_get(entries0, i as int);
                    lemma_map_of_remove(entries0, i as int);
                    assert(entries0[i as int].0@ == name@);
                    assert(map_of(entries0)[name@] == entries0[i as int].1);
                    assert(entries0[i as int].1 < u32::MAX);
                }
                let c = self.entries[i].1;
                self.entries.remove(i);
                self.entries.push((name.clone(), c + 1));
                proof {
                    assert(self.entries@.drop_last() =~= entries0.remove(i as int));
                    assert(self@ =~= map_of(entries0).remove(name@).insert(
                        name@,
                        (freq_get(map_of(entries0), name@) + 1) as u32,
                    ));
                    assert(self@ =~= map_of(entries0).insert(
                        name@,
                        (freq_get(map_of(entries0), name@) + 1) as u32,
                    ));
                    assert forall|a: int, b: int|
                        0 <= a < b < self.entries@.len() implies (#[trigger] self.entries@[a]).0@
                        != (#[trigger] self.entries@[b]).0@ by {
                        if b < self.entries@.len() - 1 {
                            assert(self.entries@[a] == entries0.remove(i as int)[a]);
                            assert(self.entries@[b] == entries0.remove(i as int)[b]);
                        } else {
                            assert(self.entries@[a] == entries0.remove(i as int)[a]);
                            lemma_map_of_contains(entries0.remove(i as int), name@);
                        }
                    }
                }
                return ;
            }
            i = i + 1;
        }
        proof {
            lemma_map_of_contains(entries0, name@);
        }
        self.entries.push((name.clone(), 1));
        proof {
            assert(self.entries@.drop_last() =~= entries0);
            assert forall|a: int, b: int|
                0 <= a < b < self.entries@.len() implies (#[trigger] self.entries@[a]).0@ != (
            #[trigger] self.entries@[b]).0@ by {
                if b < self.entries@.len() - 1 {
                    assert(self.entries@[a] == entries0[a]);
                    assert(self.entries@[b] == entries0[b]);
                } else {
                    assert(self.entries@[a] == entries0[a]);
                }
            }
        }
    }

    /// Forgets `name` entirely.
    pub fn remove(&mut self, name: &String)
        requires
            old(self).wf(),
        ensures
            final(self).wf(),
            final(self)@ =~= old(self)@.remove(name@),
            freq_get(final(self)@, name@) == 0,
    {
        let ghost entries0 = self.entries@;
        let mut i: usize = 0;
        while i < self.entries.len()
            invariant
                self.entries@ == entries0,
                old(self)@ == map_of(entries0),
                unique_names(entries0),
                i <= entries0.len(),
                forall|j: int| 0 <= j < i ==> (#[trigger] entries0[j]).0@ != name@,
            decreases entries0.len() - i,
        {
            if self.entries[i].0.eq(name) {
                proof {
                    lemma_map_of_remove(entries0, i as int);
                    assert(entries0[i as int].0@ == name@);
                }
                self.entries.remove(i);
                proof {
                    assert forall|a: int, b: int|
                        0 <= a < b < self.entries@.len() implies (#[trigger] self.entries@[a]).0@
                        != (#[trigger] self.entries@[b]).0@ by {
                        assert(self.entries@[a] == entries0.remove(i as int)[a]);
                        assert(self.entries@[b] == entries0.remove(i as int)[b]);
                    }
                }
                return ;
            }
            i = i + 1;
        }
        proof {
            lemma_map_of_contains(entries0, name@);
            assert(self@ =~= old(self)@.remove(name@));
        }
    }
}

// ---------------------------------------------------------------------------
// The on-disk text codec
// ---------------------------------------------------------------------------

/// An ASCII decimal digit.
pub open spec fn is_digit(c: char) -> bool {
    '0' <= c && c <= '9'
}

/// Value of a digit string, read left to right.
pub open spec fn digits_val(s: Seq<char>) -> int
    decreases s.len(),
{
    if s.len() == 0 {
        0
    } else {
        digits_val(s.drop_last()) * 10 + (s.last() as int - 48)
    }
}

/// A count field parses when it is one or more digits denoting a value that
/// fits in 32 bits.
pub open spec fn parse_count(s: Seq<char>) -> Option<u32> {
    if s.len() > 0 && (forall|i: int| 0 <= i < s.len() ==> is_digit(#[trigger] s[i]))
        && digits_val(s) <= u32::MAX {
        Some(digits_val(s) as u32)
    } else {
        None
    }
}

/// Index of the last occurrence of `c`, or -1 when absent.
pub open spec fn last_index_of(s: Seq<char>, c: char) -> int
    decreases s.len(),
{
    if s.len() == 0 {
        -1
    } else if s.last() == c {
        s.len() - 1
    } else {
        last_index_of(s.drop_last(), c)
    }
}

/// One record line: everything before the last tab is the name, what follows
/// must be a decimal count; a line with a trailing carriage return is read as
/// if without it; anything else is malformed.
pub open spec fn parse_line(line: Seq<char>) -> Option<(Seq<char>, u32)> {
    let l = if line.len() > 0 && line.last() == '\r' {
        line.drop_last()
    } else {
        line
    };
    let t = last_index_of(l, '\t');
    if t < 0 {
        None
    } else {
        match parse_count(l.skip(t + 1)) {
            Some(c) => Some((l.take(t), c)),
            None => None,
        }
    }
}

/// A parsed line updates the table; a malformed line is skipped.
pub open spec fn apply_line(m: Map<Seq<char>, u32>, line: Seq<char>) -> Map<Seq<char>, u32> {
    match parse_line(line) {
        None => m,
        Some((n, c)) => m.insert(n, c),
    }
}

/// The scanner state after reading `content[i..]`: the pending partial line
/// and the table built so far.
pub open spec fn scan_lines(content: Seq<char>, i: int, cur: Seq<char>, m: Map<Seq<char>, u32>) -> (
    Seq<char>,
    Map<Seq<char>, u32>,
)
    decreases content.len() - i,
{
    if i < 0 || i >= content.len() {
        (cur, m)
    } else if content[i] == '\n' {
        scan_lines(content, i + 1, Seq::empty(), apply_line(m, cur))
    } else {
        scan_lines(content, i + 1, cur.push(content[i]), m)
    }
}

/// The table a frequency file denotes: records one per line, later lines
/// overriding earlier ones, malformed lines skipped, a final line without a
/// newline still counted.
pub open spec fn parse_freq_text(content: Seq<char>) -> Map<Seq<char>, u32> {
    let (cur, m) = scan_lines(content, 0, Seq::empty(), Map::empty());
    if cur.len() == 0 {
        m
    } else {
        apply_line(m, cur)
    }
}


/// One record line as the file carries it: name, tab, decimal count, newline.
pub open spec fn render_record(name: Seq<char>, c: u32) -> Seq<char> {
    name + seq!['\t'] + render_u32(c as int) + seq!['\n']
}

/// A whole frequency file: one record line after another.
pub open spec fn records_text(ps: Seq<(Seq<char>, u32)>) -> Seq<char>
    decreases ps.len(),
{
    if ps.len() == 0 {
        Seq::empty()
    } else {
        render_record(ps[0].0, ps[0].1) + records_text(ps.drop_first())
    }
}

/// `ps` lists each record of the table exactly once, with its count.
pub open spec fn enumerates(ps: Seq<(Seq<char>, u32)>, m: Map<Seq<char>, u32>) -> bool {
    &&& forall|i: int|
        0 <= i < ps.len() ==> m.contains_key((#[trigger] ps[i]).0) && m[ps[i].0] == ps[i].1
    &&& forall|n: Seq<char>|
        m.contains_key(n) ==> exists|i: int| 0 <= i < ps.len() && (#[trigger] ps[i]).0 == n
    &&& forall|i: int, j: int|
        0 <= i < j < ps.len() ==> (#[trigger] ps[i]).0 != (#[trigger] ps[j]).0
}

proof fn lemma_records_text_concat(a: Seq<(Seq<char>, u32)>, b: Seq<(Seq<char>, u32)>)
    ensures
        records_text(a + b) == records_text(a) + records_text(b),
    decreases a.len(),
{
    if a.len() == 0 {
        assert(a + b =~= b);
        assert(records_text(a) + records_text(b) =~= records_text(b));
    } else {
        assert((a + b)[0] == a[0]);
        assert((a + b).drop_first() =~= a.drop_first() + b);
        lemma_records_text_concat(a.drop_first(), b);
        assert(render_record(a[0].0, a[0].1) + (records_text(a.drop_first()) + records_text(b))
            =~= (render_record(a[0].0, a[0].1) + records_text(a.drop_first())) + records_text(b));
    }
}

proof fn lemma_scan_shift(c: Seq<char>, ext: Seq<char>, j: int, cur: Seq<char>, m: Map<Seq<char>, u32>)
    requires
        0 <= j <= ext.len(),
    ensures
        scan_lines(c + ext, c.len() + j, cur, m) == scan_lines(ext, j, cur, m),
    decreases ext.len() - j,
{
    if j < ext.len() {
        assert((c + ext)[c.len() + j] == ext[j]);
        if ext[j] == '\n' {
            lemma_scan_shift(c, ext, j + 1, Seq::empty(), apply_line(m, cur));
        } else {
            lemma_scan_shift(c, ext, j + 1, cur.push(ext[j]), m);
        }
    }
}

proof fn lemma_scan_split(c: Seq<char>, ext: Seq<char>, i: int, cur: Seq<char>, m: Map<Seq<char>, u32>)
    requires
        0 <= i <= c.len(),
    ensures
        scan_lines(c + ext, i, cur, m) == ({
            let (c1, m1) = scan_lines(c, i, cur, m);
            scan_lines(ext, 0, c1, m1)
        }),
    decreases c.len() - i,
{
    if i == c.len() {
        lemma_scan_shift(c, ext, 0, cur, m);
    } else {
        assert((c + ext)[i] == c[i]);
        if c[i] == '\n' {
            lemma_scan_split(c, ext, i + 1, Seq::empty(), apply_line(m, cur));
        } else {
            lemma_scan_split(c, ext, i + 1, cur.push(c[i]), m);
        }
    }
}

proof fn lemma_scan_no_newline(l: Seq<char>, j: int, cur: Seq<char>, m: Map<Seq<char>, u32>)
    requires
        0 <= j <= l.len(),
        forall|a: int| 0 <= a < l.len() ==> l[a] != '\n',
    ensures
        scan_lines(l, j, cur, m) == (cur + l.skip(j), m),
    decreases l.len() - j,
{
    if j == l.len() {
        assert(l.skip(j) =~= Seq::<char>::empty());
        assert(cur + l.skip(j) =~= cur);
    } else {
        lemma_scan_no_newline(l, j + 1, cur.push(l[j]), m);
        assert(cur.push(l[j]) + l.skip(j + 1) =~= cur + l.skip(j));
    }
}

/// The decimal rendering of a non-negative count.
pub open spec fn render_u32(c: int) -> Seq<char>
    decreases c,
{
    if c <= 0 {
        seq!['0']
    } else if c < 10 {
        seq![(48 + c) as char]
    } else {
        render_u32(c / 10).push((48 + c % 10) as char)
    }
}

/// Every character of a rendering is a digit, and reading it back gives the
/// count.
proof fn lemma_render_u32_props(c: int)
    requires
        0 <= c,
    ensures
        render_u32(c).len() >= 1,
        forall|i: int| 0 <= i < render_u32(c).len() ==> is_digit(#[trigger] render_u32(c)[i]),
        digits_val(render_u32(c)) == c,
    decreases c,
{
    if c < 10 {
        let ch = (48 + c) as char;
        assert(ch as int == 48 + c) by {
            assert(0 <= 48 + c < 128);
        }
        let sing = seq![ch];
        assert(render_u32(c) =~= sing);
        assert(sing.last() == ch);
        assert(sing.drop_last() =~= Seq::<char>::empty());
        assert(digits_val(Seq::<char>::empty()) == 0);
        assert(digits_val(sing) == digits_val(Seq::<char>::empty()) * 10 + (ch as int - 48));
    } else {
        lemma_render_u32_props(c / 10);
        let r = render_u32(c);
        let d = c % 10;
        assert(r.drop_last() =~= render_u32(c / 10));
        assert(r.last() == (48 + d) as char);
        assert((48 + d) as char as int == 48 + d) by {
            assert(0 <= 48 + d < 128);
        }
        assert(digits_val(r) == (c / 10) * 10 + d);
        assert((c / 10) * 10 + c % 10 == c) by (nonlinear_arith);
        assert forall|i: int| 0 <= i < r.len() implies is_digit(#[trigger] r[i]) by {
            if i < r.len() - 1 {
                assert(r[i] == render_u32(c / 10)[i]);
            }
        }
    }
}

/// Renders a count in decimal.
fn render_count(c: u32) -> (r: Vec<char>)
    ensures
        r@ == render_u32(c as int),
{
    let mut out: Vec<char> = Vec::new();
    if c == 0 {
        out.push('0');
        proof {
            assert(out@ =~= render_u32(0));
        }
        return out;
    }
    let mut n: u32 = c;
    while n > 0
        invariant
            n >= 0,
            render_u32(c as int) == (if n > 0 {
                render_u32(n as int) + out@
            } else {
                out@
            }),
        decreases n,
    {
        let d = n % 10;
        let ch = (48 + d as u8) as char;
        out.insert(0, ch);
        proof {
            assert(ch == (48 + (n as int) % 10) as char);
            if n >= 10 {
                assert(render_u32(n as int) == render_u32((n as int) / 10).push(ch));
                assert(render_u32((n as int) / 10).push(ch) + out@.drop_first() =~= render_u32(
                    (n as int) / 10,
                ) + out@);
            } else {
                assert(render_u32(n as int) =~= seq![ch]);
                assert(seq![ch] + out@.drop_first() =~= out@);
            }
        }
        n = n / 10;
    }
    out
}

proof fn lemma_last_index_no_suffix(a: Seq<char>, b: Seq<char>, c: char)
    requires
        forall|j: int| 0 <= j < b.len() ==> b[j] != c,
    ensures
        last_index_of(a + b, c) == last_index_of(a, c),
    decreases b.len(),
{
    if b.len() == 0 {
        assert(a + b =~= a);
    } else {
        assert((a + b).drop_last() =~= a + b.drop_last());
        assert((a + b).last() == b.last());
        assert forall|j: int| 0 <= j < b.drop_last().len() implies b.drop_last()[j] != c by {
            assert(b.drop_last()[j] == b[j]);
        }
        lemma_last_index_no_suffix(a, b.drop_last(), c);
    }
}

proof fn lemma_last_index_here(l: Seq<char>, t: int, c: char)
    requires
        0 <= t < l.len(),
        l[t] == c,
        forall|j: int| t < j < l.len() ==> l[j] != c,
    ensures
        last_index_of(l, c) == t,
    decreases l.len(),
{
    if t == l.len() - 1 {
    } else {
        assert(l.drop_last()[t] == l[t]);
        assert forall|j: int| t < j < l.drop_last().len() implies l.drop_last()[j] != c by {
            assert(l.drop_last()[j] == l[j]);
        }
        lemma_last_index_here(l.drop_last(), t, c);
        assert(l.last() != c);
    }
}

proof fn lemma_last_index_absent(l: Seq<char>, c: char)
    requires
        forall|j: int| 0 <= j < l.len() ==> l[j] != c,
    ensures
        last_index_of(l, c) == -1,
    decreases l.len(),
{
    if l.len() > 0 {
        assert forall|j: int| 0 <= j < l.drop_last().len() implies l.drop_last()[j] != c by {
            assert(l.drop_last()[j] == l[j]);
        }
        lemma_last_index_absent(l.drop_last(), c);
    }
}

/// A rendered record line reads back as exactly its name and count.
proof fn lemma_parse_line_roundtrip(name: Seq<char>, c: u32)
    ensures
        parse_line(name + seq!['\t'] + render_u32(c as int)) == Some::<(Seq<char>, u32)>(
            (name, c),
        ),
{
    lemma_render_u32_props(c as int);
    let digits = render_u32(c as int);
    let line = name + seq!['\t'] + digits;
    assert(line.last() == digits.last());
    assert(is_digit(digits[digits.len() - 1]));
    assert(line.last() != '\r');
    assert forall|j: int| 0 <= j < digits.len() implies digits[j] != '\t' by {
        assert(is_digit(digits[j]));
    }
    lemma_last_index_no_suffix(name + seq!['\t'], digits, '\t');
    assert((name + seq!['\t']).last() == '\t');
    assert(last_index_of(name + seq!['\t'], '\t') == name.len());
    assert(last_index_of(line, '\t') == name.len());
    assert(line.skip(name.len() as int + 1) =~= digits);
    assert(line.take(name.len() as int) =~= name);
    assert(parse_count(digits) == Some(c));
}

impl Frequency {
    /// Sets the record for `name` outright.
    pub fn set_count(&mut self, name: String, c: u32)
        requires
            old(self).wf(),
        ensures
            final(self).wf(),
            final(self)@ =~= old(self)@.insert(name@, c),
    {
        let ghost entries0 = self.entries@;
        self.remove(&name);
        let ghost entries1 = self.entries@;
        self.entries.push((name, c));
        proof {
            assert(self.entries@.drop_last() =~= entries1);
            lemma_map_of_contains(entries1, self.entries@.last().0@);
            assert forall|a: int, b: int|
                0 <= a < b < self.entries@.len() implies (#[trigger] self.entries@[a]).0@ != (
            #[trigger] self.entries@[b]).0@ by {
                if b < self.entries@.len() - 1 {
                    assert(self.entries@[a] == entries1[a]);
                    assert(self.entries@[b] == entries1[b]);
                } else {
                    assert(self.entries@[a] == entries1[a]);
                    assert(map_of(entries1).contains_key(entries1[a].0@)) by {
                        lemma_map_of_get_any(entries1, a);
                    }
                }
            }
            assert(self@ =~= map_of(entries0).remove(self.entries@.last().0@).insert(
                self.entries@.last().0@,
                c,
            ));
        }
    }
}

/// Under unique names, every entry is a key of the map.
proof fn lemma_map_of_get_any(entries: Seq<(String, u32)>, i: int)
    requires
        0 <= i < entries.len(),
        unique_names(entries),
    ensures
        map_of(entries).contains_key(entries[i].0@),
{
    lemma_map_of_contains(entries, entries[i].0@);
}

/// Parses one record line: the name before the last tab and its decimal
/// count, or nothing when the line is malformed.
fn parse_line_exec(line: &Vec<char>) -> (r: Option<(String, u32)>)
    ensures
        match parse_line(line@) {
            Some((n, c)) => r matches Some(p) && p.0@ == n && p.1 == c,
            None => r is None,
        },
{
    let mut e = line.len();
    if e > 0 && line[e - 1] == '\r' {
        e = e - 1;
    }
    let ghost l = if line@.len() > 0 && line@.last() == '\r' {
        line@.drop_last()
    } else {
        line@
    };
    proof {
        assert(l =~= line@.subrange(0, e as int));
    }
    // find the last tab in line[..e]
    let mut ti: usize = e;
    let mut found = false;
    while ti > 0 && !found
        invariant
            ti <= e,
            e <= line@.len(),
            l == line@.subrange(0, e as int),
            !found ==> forall|j: int| ti <= j < e ==> l[j] != '\t',
            found ==> ti < e && l[ti as int] == '\t' && forall|j: int| ti < j < e ==> l[j] != '\t',
        decreases ti,
    {
        if line[ti - 1] == '\t' {
            ti = ti - 1;
            found = true;
        } else {
            ti = ti - 1;
        }
    }
    if !found {
        proof {
            lemma_last_index_absent(l, '\t');
        }
        return None;
    }
    proof {
        lemma_last_index_here(l, ti as int, '\t');
    }
    // parse the count digits line[ti+1..e]
    let ghost digits = l.skip(ti as int + 1);
    if ti + 1 == e {
        proof {
            assert(digits.len() == 0);
        }
        return None;
    }
    let mut val: u64 = 0;
    let mut over = false;
    let mut j: usize = ti + 1;
    while j < e
        invariant
            ti < j <= e,
            ti + 1 < e,
            e <= line@.len(),
            l == line@.subrange(0, e as int),
            l == (if line@.len() > 0 && line@.last() == '\r' {
                line@.drop_last()
            } else {
                line@
            }),
            last_index_of(l, '\t') == ti,
            digits == l.skip(ti as int + 1),
            forall|a: int| 0 <= a < j - ti - 1 ==> is_digit(#[trigger] digits[a]),
            !over ==> val <= u32::MAX && val as int == digits_val(digits.subrange(0, j - ti - 1)),
            over ==> digits_val(digits.subrange(0, j - ti - 1)) > u32::MAX,
            digits_val(digits.subrange(0, j - ti - 1)) >= 0,
        decreases e - j,
    {
        let ch = line[j];
        if !('0' <= ch && ch <= '9') {
            proof {
                assert(digits[j - ti - 1] == ch);
                assert(!is_digit(digits[j - ti - 1]));
            }
            return None;
        }
        let d: u64 = (ch as u32 - 48) as u64;
        proof {
            let pre = digits.subrange(0, j - ti - 1);
            let post = digits.subrange(0, j - ti);
            assert(post.drop_last() =~= pre);
            assert(post.last() == digits[j - ti - 1]);
            assert(digits[j - ti - 1] == ch);
            assert(d as int == ch as int - 48);
        }
        if over {
            proof {
                let pre = digits.subrange(0, j - ti - 1);
                let post = digits.subrange(0, j - ti);
                assert(digits_val(post) == digits_val(pre) * 10 + (ch as int - 48));
            }
        } else {
            let next = val * 10 + d;
            if next > 0xffff_ffff {
                over = true;
            } else {
                val = next;
            }
        }
        j = j + 1;
    }
    proof {
        assert(digits.subrange(0, digits.len() as int) =~= digits);
    }
    if over {
        return None;
    }
    // the name is line[..ti]
    let mut namev: Vec<char> = Vec::new();
    let mut k: usize = 0;
    while k < ti
        invariant
            k <= ti,
            ti < e <= line@.len(),
            l == line@.subrange(0, e as int),
            namev@ == l.subrange(0, k as int),
        decreases ti - k,
    {
        namev.push(line[k]);
        k = k + 1;
        proof {
            assert(namev@ =~= l.subrange(0, k as int));
        }
    }
    proof {
        assert(namev@ =~= l.take(ti as int));
    }
    let name = crate::text::string_of(&namev);
    Some((name, val as u32))
}

impl Frequency {
    /// Reads a whole frequency file: one record per line, later records
    /// overriding earlier ones, malformed lines skipped.
    pub fn load_from_text(content: &str) -> (r: Frequency)
        ensures
            r.wf(),
            r@ == parse_freq_text(content@),
    {
        let cs = chars_of(content);
        let mut freq = Frequency::empty();
        let mut cur: Vec<char> = Vec::new();
        let mut i: usize = 0;
        let ghost full = scan_lines(content@, 0, Seq::empty(), Map::empty());
        proof {
            assert(cur@ =~= Seq::<char>::empty());
            assert(freq@ =~= Map::<Seq<char>, u32>::empty());
        }
        while i < cs.len()
            invariant
                i <= cs@.len(),
                cs@ == content@,
                freq.wf(),
                full == scan_lines(content@, 0, Seq::empty(), Map::empty()),
                scan_lines(content@, i as int, cur@, freq@) == full,
            decreases cs@.len() - i,
        {
            let ch = cs[i];
            if ch == '\n' {
                let ghost m0 = freq@;
                match parse_line_exec(&cur) {
                    Some((n, c)) => {
                        freq.set_count(n, c);
                    },
                    None => {},
                }
                proof {
                    assert(freq@ =~= apply_line(m0, cur@));
                }
                cur.clear();
                proof {
                    assert(cur@ =~= Seq::<char>::empty());
                }
            } else {
                cur.push(ch);
            }
            i = i + 1;
        }
        if cur.len() > 0 {
            let ghost m0 = freq@;
            match parse_line_exec(&cur) {
                Some((n, c)) => {
                    freq.set_count(n, c);
                },
                None => {},
            }
            proof {
                assert(freq@ =~= apply_line(m0, cur@));
            }
        }
        freq
    }

    /// Writes the whole table as a frequency file: exactly one
    /// name-tab-decimal-count-newline line per record, the whole file
    /// rewritten. Reading the result back yields exactly this table: the
    /// round trip loses nothing.
    pub fn to_text(&self) -> (r: String)
        requires
            self.wf(),
            forall|n: Seq<char>| self@.contains_key(n) ==> !n.contains('\n'),
        ensures
            parse_freq_text(r@) == self@,
            exists|ps: Seq<(Seq<char>, u32)>| #[trigger] enumerates(ps, self@) && r@
                == records_text(ps),
    {
        let mut out: Vec<char> = Vec::new();
        let mut k: usize = 0;
        let ghost entries0 = self.entries@;
        let ghost psv = entries0.map_values(|e: (String, u32)| (e.0@, e.1));
        proof {
            assert(out@ =~= Seq::<char>::empty());
            assert(entries0.subrange(0, 0) =~= Seq::<(String, u32)>::empty());
            assert(scan_lines(out@, 0, Seq::empty(), Map::empty()) == (
                Seq::<char>::empty(),
                map_of(entries0.subrange(0, 0)),
            ));
            assert(psv.subrange(0, 0) =~= Seq::<(Seq<char>, u32)>::empty());
            assert(out@ =~= records_text(psv.subrange(0, 0)));
        }
        while k < self.entries.len()
            invariant
                k <= entries0.len(),
                self.entries@ == entries0,
                unique_names(entries0),
                psv == entries0.map_values(|e: (String, u32)| (e.0@, e.1)),
                forall|n: Seq<char>| map_of(entries0).contains_key(n) ==> !n.contains('\n'),
                scan_lines(out@, 0, Seq::empty(), Map::empty()) == (
                    Seq::<char>::empty(),
                    map_of(entries0.subrange(0, k as int)),
                ),
                out@ == records_text(psv.subrange(0, k as int)),
            decreases entries0.len() - k,
        {
            let ghost out0 = out@;
            let ghost mk = map_of(entries0.subrange(0, k as int));
            let name = &self.entries[k].0;
            let c = self.entries[k].1;
            let namech = chars_of(name.as_str());
            let digits = render_count(c);
            let ghost line = name@ + seq!['\t'] + render_u32(c as int);
            let mut a: usize = 0;
            while a < namech.len()
                invariant
                    a <= namech@.len(),
                    namech@ == entries0[k as int].0@,
                    k < entries0.len(),
                    out@ == out0 + namech@.subrange(0, a as int),
                decreases namech@.len() - a,
            {
                out.push(namech[a]);
                a = a + 1;
                proof {
                    assert(out@ =~= out0 + namech@.subrange(0, a as int));
                }
            }
            out.push('\t');
            let mut b: usize = 0;
            proof {
                assert(namech@.subrange(0, namech@.len() as int) =~= namech@);
                assert(out@ =~= out0 + (namech@ + seq!['\t']));
            }
            let ghost out1 = out@;
            while b < digits.len()
                invariant
                    b <= digits@.len(),
                    digits@ == render_u32(c as int),
                    out@ == out1 + digits@.subrange(0, b as int),
                decreases digits@.len() - b,
            {
                out.push(digits[b]);
                b = b + 1;
                proof {
                    assert(out@ =~= out1 + digits@.subrange(0, b as int));
                }
            }
            out.push('\n');
            proof {
                assert(digits@.subrange(0, digits@.len() as int) =~= digits@);
                assert(out@ =~= out0 + (line + seq!['\n']));
                let ext = line + seq!['\n'];
                lemma_scan_split(out0, ext, 0, Seq::empty(), Map::empty());
                // scanning the line itself
                lemma_render_u32_props(c as int);
                lemma_map_of_get_any(entries0, k as int);
                assert(map_of(entries0).contains_key(entries0[k as int].0@));
                assert(!entries0[k as int].0@.contains('\n'));
                assert forall|j: int| 0 <= j < line.len() implies line[j] != '\n' by {
                    if j < name@.len() {
                        assert(line[j] == name@[j]);
                        assert(!name@.contains('\n'));
                        assert(name@[j] != '\n');
                    } else if j == name@.len() {
                        assert(line[j] == '\t');
                    } else {
                        assert(line[j] == render_u32(c as int)[j - name@.len() - 1]);
                        assert(is_digit(render_u32(c as int)[j - name@.len() - 1]));
                    }
                }
                lemma_scan_split(line, seq!['\n'], 0, Seq::empty(), mk);
                lemma_scan_no_newline(line, 0, Seq::empty(), mk);
                assert(line.skip(0) =~= line);
                assert(Seq::<char>::empty() + line =~= line);
                assert(scan_lines(seq!['\n'], 0, line, mk) == scan_lines(
                    seq!['\n'],
                    1,
                    Seq::empty(),
                    apply_line(mk, line),
                ));
                lemma_parse_line_roundtrip(name@, c);
                assert(apply_line(mk, line) == mk.insert(name@, c));
                // fold one more entry into the map
                assert(entries0.subrange(0, k as int + 1).drop_last() =~= entries0.subrange(
                    0,
                    k as int,
                ));
                assert(map_of(entries0.subrange(0, k as int + 1)) == mk.insert(name@, c));
                // and one more record line onto the text
                assert(line + seq!['\n'] =~= render_record(name@, c));
                assert(psv.subrange(0, k as int + 1) =~= psv.subrange(0, k as int) + seq![
                    psv[k as int]]);
                lemma_records_text_concat(psv.subrange(0, k as int), seq![psv[k as int]]);
                assert(psv[k as int] == (name@, c));
                assert(seq![psv[k as int]].drop_first() =~= Seq::<(Seq<char>, u32)>::empty());
                assert(seq![psv[k as int]][0] == (name@, c));
                assert(records_text(Seq::<(Seq<char>, u32)>::empty()) =~= Seq::<char>::empty());
                assert(render_record(name@, c) + Seq::<char>::empty() =~= render_record(name@, c));
                assert(records_text(seq![psv[k as int]]) =~= render_record(name@, c));
                assert(out@ =~= records_text(psv.subrange(0, k as int)) + render_record(name@, c));
                assert(out@ =~= records_text(psv.subrange(0, k as int + 1)));
            }
            k = k + 1;
        }
        proof {
            assert(entries0.subrange(0, entries0.len() as int) =~= entries0);
            assert(psv.subrange(0, psv.len() as int) =~= psv);
            assert forall|i: int|
                0 <= i < psv.len() implies map_of(entries0).contains_key((#[trigger] psv[i]).0)
                && map_of(entries0)[psv[i].0] == psv[i].1 by {
                assert(psv[i] == (entries0[i].0@, entries0[i].1));
                lemma_map_of_get(entries0, i);
            }
            assert forall|n: Seq<char>| map_of(entries0).contains_key(n) implies exists|i: int|
                0 <= i < psv.len() && (#[trigger] psv[i]).0 == n by {
                lemma_map_of_contains(entries0, n);
                let i = choose|i: int|
                    0 <= i < entries0.len() && (#[trigger] entries0[i]).0@ == n;
                assert(psv[i].0 == n);
            }
            assert forall|i: int, j: int|
                0 <= i < j < psv.len() implies (#[trigger] psv[i]).0 != (#[trigger] psv[j]).0 by {
                assert(psv[i].0 == entries0[i].0@ && psv[j].0 == entries0[j].0@);
            }
            assert(enumerates(psv, self@));
        }
        crate::text::string_of(&out)
    }
}

/// The table after `n` increments of `name`.
pub open spec fn inc_n(m: Map<Seq<char>, u32>, name: Seq<char>, n: nat) -> Map<Seq<char>, u32>
    decreases n,
{
    if n == 0 {
        m
    } else {
        let m1 = inc_n(m, name, (n - 1) as nat);
        m1.insert(name, (freq_get(m1, name) + 1) as u32)
    }
}

/// Frequency monotonicity: `n` increments of `name` raise its count by exactly
/// `n` and touch no other name.
pub proof fn lemma_increment_monotonic(m: Map<Seq<char>, u32>, name: Seq<char>, n: nat)
    requires
        freq_get(m, name) + n <= u32::MAX,
    ensures
        freq_get(inc_n(m, name, n), name) == freq_get(m, name) + n,
        forall|other: Seq<char>|
            other != name ==> #[trigger] freq_get(inc_n(m, name, n), other) == freq_get(m, other),
    decreases n,
{
    if n > 0 {
        lemma_increment_monotonic(m, name, (n - 1) as nat);
        let m1 = inc_n(m, name, (n - 1) as nat);
        assert(freq_get(m1, name) == freq_get(m, name) + n - 1);
        assert forall|other: Seq<char>| other != name implies #[trigger] freq_get(
            inc_n(m, name, n),
            other,
        ) == freq_get(m, other) by {
            assert(freq_get(m1, other) == freq_get(m, other));
            assert(inc_n(m, name, n) == m1.insert(name, (freq_get(m1, name) + 1) as u32));
        }
    }
}

impl Frequency {
    /// Merges freshly discovered names into the table: every stored record
    /// keeps its count, every discovered name becomes a key, and a name seen
    /// for the first time enters with a zero count, so it stays visible in
    /// the catalog without ranking bias.
    pub fn merge_discovered(&mut self, names: &Vec<String>)
        requires
            old(self).wf(),
        ensures
            final(self).wf(),
            forall|n: Seq<char>|
                old(self)@.contains_key(n) ==> #[trigger] final(self)@.contains_key(n)
                    && final(self)@[n] == old(self)@[n],
            forall|i: int|
                0 <= i < names@.len() ==> final(self)@.contains_key((#[trigger] names@[i])@),
            forall|n: Seq<char>|
                #[trigger] final(self)@.contains_key(n) ==> old(self)@.contains_key(n) || exists|i: int|
                    0 <= i < names@.len() && (#[trigger] names@[i])@ == n,
            forall|n: Seq<char>|
                #[trigger] final(self)@.contains_key(n) && !old(self)@.contains_key(n)
                    ==> final(self)@[n] == 0,
    {
        let mut i: usize = 0;
        while i < names.len()
            invariant
                i <= names@.len(),
                self.wf(),
                forall|n: Seq<char>|
                    old(self)@.contains_key(n) ==> #[trigger] self@.contains_key(n) && self@[n]
                        == old(self)@[n],
                forall|j: int| 0 <= j < i ==> self@.contains_key((#[trigger] names@[j])@),
                forall|n: Seq<char>|
                    #[trigger] self@.contains_key(n) ==> old(self)@.contains_key(n) || exists|j: int|
                        0 <= j < i && (#[trigger] names@[j])@ == n,
                forall|n: Seq<char>|
                    #[trigger] self@.contains_key(n) && !old(self)@.contains_key(n) ==> self@[n]
                        == 0,
            decreases names@.len() - i,
        {
            let name = &names[i];
            let ghost nview = name@;
            if self.get(name) == 0 {
                let ghost pre = self@;
                proof {
                    assert(forall|n: Seq<char>|
                        #[trigger] old(self)@.contains_key(n) ==> pre.contains_key(n) && pre[n]
                            == old(self)@[n]);
                    assert(freq_get(pre, nview) == 0);
                }
                self.set_count(name.clone(), 0);
                proof {
                    assert(self@ =~= pre.insert(nview, 0));
                    assert forall|n: Seq<char>|
                        old(self)@.contains_key(n) implies #[trigger] self@.contains_key(n)
                        && self@[n] == old(self)@[n] by {
                        assert(pre.contains_key(n) && pre[n] == old(self)@[n]);
                        if n == nview {
                            assert(freq_get(pre, nview) == 0);
                            assert(pre[n] == 0);
                            assert(self@[n] == 0);
                        } else {
                            assert(self@[n] == pre[n]);
                        }
                    }
                }
            } else {
                proof {
                    assert(freq_get(self@, nview) != 0);
                    assert(self@.contains_key(nview));
                }
            }
            proof {
                assert(self@.contains_key((names@[i as int])@));
            }
            i = i + 1;
        }
    }
}

} // verus!
