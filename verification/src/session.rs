//! The selection controller: the dual-cursor state machine that reconciles
//! text editing with result browsing, and its content-width-dependent
//! pagination.

use vstd::prelude::*;

use crate::frequency::{Frequency, freq_get};
use crate::filter::FilteredApp;
use crate::text::is_space_char;

verus! {

// ---------------------------------------------------------------------------
// Pagination
// ---------------------------------------------------------------------------

/// Last index of the page that begins at item `e`, with `rem` width still
/// available: the page extends while the next item still fits.
pub open spec fn extend_page(widths: Seq<u64>, e: int, rem: int) -> int
    decreases widths.len() - e,
{
    if e < 0 || e + 1 >= widths.len() {
        e
    } else if widths[e + 1] <= rem {
        extend_page(widths, e + 1, rem - widths[e + 1])
    } else {
        e
    }
}

/// Last index of the page beginning at `s`: the maximal run of items from `s`
/// whose widths sum within `avail`, always holding at least item `s` itself.
pub open spec fn page_end(widths: Seq<u64>, s: int, avail: int) -> int {
    extend_page(widths, s, avail - widths[s])
}

pub proof fn lemma_extend_page_bounds(widths: Seq<u64>, e: int, rem: int)
    requires
        0 <= e < widths.len(),
    ensures
        e <= extend_page(widths, e, rem) < widths.len(),
    decreases widths.len() - e,
{
    if e + 1 < widths.len() && widths[e + 1] <= rem {
        lemma_extend_page_bounds(widths, e + 1, rem - widths[e + 1]);
    }
}

/// Start of the page that contains `target`, walking pages greedily from `s`.
pub open spec fn page_start_from(widths: Seq<u64>, s: int, target: int, avail: int) -> int
    decreases widths.len() - s,
    when 0 <= s < widths.len() && s <= target < widths.len()
    via page_start_from_decreases
{
    if target <= page_end(widths, s, avail) {
        s
    } else {
        page_start_from(widths, page_end(widths, s, avail) + 1, target, avail)
    }
}

#[via_fn]
proof fn page_start_from_decreases(widths: Seq<u64>, s: int, target: int, avail: int) {
    lemma_extend_page_bounds(widths, s, avail - widths[s]);
}

/// Start of the page containing `target` when pages are walked from the first
/// item.
pub open spec fn page_start_of(widths: Seq<u64>, target: int, avail: int) -> int {
    page_start_from(widths, 0, target, avail)
}

pub proof fn lemma_page_start_from_bounds(widths: Seq<u64>, s: int, target: int, avail: int)
    requires
        0 <= s < widths.len(),
        s <= target < widths.len(),
    ensures
        s <= page_start_from(widths, s, target, avail) <= target,
        target <= page_end(widths, page_start_from(widths, s, target, avail), avail) < widths.len(),
    decreases widths.len() - s,
{
    lemma_extend_page_bounds(widths, s, avail - widths[s]);
    if target > page_end(widths, s, avail) {
        lemma_page_start_from_bounds(widths, page_end(widths, s, avail) + 1, target, avail);
    }
}

/// Computes the last index of the page beginning at `s`.
pub fn compute_page_end(widths: &Vec<u64>, s: usize, avail: u64) -> (e: usize)
    requires
        s < widths@.len(),
    ensures
        e as int == page_end(widths@, s as int, avail as int),
        s <= e < widths@.len(),
{
    proof {
        lemma_extend_page_bounds(widths@, s as int, avail as int - widths@[s as int]);
    }
    let w0 = widths[s];
    if w0 > avail {
        proof {
            assert(extend_page(widths@, s as int, avail as int - widths@[s as int]) == s) by {
                if s as int + 1 < widths@.len() {
                    assert(widths@[s as int + 1] >= 0);
                }
            }
        }
        return s;
    }
    let mut e: usize = s;
    let mut rem: u64 = avail - w0;
    let n = widths.len();
    while e + 1 < n && widths[e + 1] <= rem
        invariant
            n == widths@.len(),
            s <= e < widths@.len(),
            rem <= avail,
            extend_page(widths@, s as int, avail as int - widths@[s as int]) == extend_page(
                widths@,
                e as int,
                rem as int,
            ),
        decreases widths@.len() - e,
    {
        rem = rem - widths[e + 1];
        e = e + 1;
    }
    e
}

/// Walks pages from the first result to find the page holding `target`.
pub fn find_page_containing(widths: &Vec<u64>, target: usize, avail: u64) -> (s: usize)
    requires
        target < widths@.len(),
    ensures
        s as int == page_start_of(widths@, target as int, avail as int),
        s <= target,
        target <= page_end(widths@, s as int, avail as int) < widths@.len(),
{
    let mut s: usize = 0;
    loop
        invariant_except_break
            0 <= s <= target < widths@.len(),
            page_start_of(widths@, target as int, avail as int) == page_start_from(
                widths@,
                s as int,
                target as int,
                avail as int,
            ),
        ensures
            s <= target < widths@.len(),
            s as int == page_start_of(widths@, target as int, avail as int),
            target as int <= page_end(widths@, s as int, avail as int),
        decreases widths@.len() - s,
    {
        let e = compute_page_end(widths, s, avail);
        if target <= e {
            break;
        }
        s = e + 1;
    }
    proof {
        lemma_page_start_from_bounds(widths@, s as int, target as int, avail as int);
    }
    s
}

// ---------------------------------------------------------------------------
// The session state machine
// ---------------------------------------------------------------------------

/// A logical key action, as the input decoder produces it.
pub enum Action {
    Left,
    Right,
    Insert(char),
    Backspace,
    Tab,
    Delete,
    Enter,
    Escape,
}

/// What the surrounding loop must do after a transition.
pub enum Effect {
    Nothing,
    Launch(String),
    RemoveEntry(String),
    Quit,
}

/// The mathematical content of an effect.
pub enum EffectView {
    Nothing,
    Launch(Seq<char>),
    RemoveEntry(Seq<char>),
    Quit,
}

pub open spec fn effect_view(e: Effect) -> EffectView {
    match e {
        Effect::Nothing => EffectView::Nothing,
        Effect::Launch(s) => EffectView::Launch(s@),
        Effect::RemoveEntry(s) => EffectView::RemoveEntry(s@),
        Effect::Quit => EffectView::Quit,
    }
}

/// The mathematical content of the session state.
pub struct SessionView {
    pub query: Seq<char>,
    pub caret: int,
    pub browsing: bool,
    pub confirm: Option<Seq<char>>,
    pub selected: int,
    pub scroll_offset: int,
    pub last_visible: int,
    pub page_size: int,
}

/// The cursor/pagination state of one session.
pub struct SessionState {
    pub query: Vec<char>,
    pub caret: usize,
    pub browsing: bool,
    pub delete_confirm: Option<String>,
    pub selected: usize,
    pub scroll_offset: usize,
    pub last_visible: usize,
    pub page_size: usize,
}

impl View for SessionState {
    type V = SessionView;

    open spec fn view(&self) -> SessionView {
        SessionView {
            query: self.query@,
            caret: self.caret as int,
            browsing: self.browsing,
            confirm: match self.delete_confirm {
                Some(ref n) => Some(n@),
                None => None,
            },
            selected: self.selected as int,
            scroll_offset: self.scroll_offset as int,
            last_visible: self.last_visible as int,
            page_size: self.page_size as int,
        }
    }
}

/// A query of nothing but whitespace.
pub open spec fn is_blank(q: Seq<char>) -> bool {
    forall|i: int| 0 <= i < q.len() ==> is_space_char(#[trigger] q[i])
}

/// The state invariant: the caret stays inside the query; the selection and
/// the scroll position stay inside the result list; while browsing, the
/// selection lies on the current page.
pub open spec fn session_inv(v: SessionView, results_len: int) -> bool {
    &&& 0 <= v.caret <= v.query.len()
    &&& 0 <= v.selected && 0 <= v.scroll_offset && 0 <= v.last_visible && 0 <= v.page_size
    &&& results_len > 0 ==> v.selected < results_len
    &&& results_len > 0 ==> v.scroll_offset < results_len
    &&& v.browsing ==> v.scroll_offset <= v.selected && v.selected <= v.last_visible
        && v.last_visible < results_len
}

/// The names of the current results, in ranked order.
pub open spec fn result_names(rs: Seq<FilteredApp>) -> Seq<Seq<char>> {
    rs.map_values(|f: FilteredApp| f.name@)
}

/// One transition of the selection controller. `names` are the current result
/// names, `widths` their rendered widths (padding included), `avail` the strip
/// width available, `fm` the frequency table.
pub open spec fn step(
    v: SessionView,
    a: Action,
    names: Seq<Seq<char>>,
    widths: Seq<u64>,
    avail: int,
    fm: Map<Seq<char>, u32>,
) -> (SessionView, EffectView) {
    match v.confirm {
        Some(name) => match a {
            Action::Insert(c) => {
                if c == 'y' || c == 'Y' {
                    (SessionView { confirm: None, browsing: false, ..v }, EffectView::RemoveEntry(name))
                } else if c == 'n' || c == 'N' {
                    (SessionView { confirm: None, ..v }, EffectView::Nothing)
                } else {
                    (v, EffectView::Nothing)
                }
            },
            Action::Enter => (
                SessionView { confirm: None, browsing: false, ..v },
                EffectView::RemoveEntry(name),
            ),
            Action::Escape => (SessionView { confirm: None, ..v }, EffectView::Nothing),
            _ => (v, EffectView::Nothing),
        },
        None => match a {
            Action::Escape => (v, EffectView::Quit),
            Action::Enter => {
                if names.len() > 0 {
                    (v, EffectView::Launch(names[v.selected]))
                } else if !is_blank(v.query) {
                    (v, EffectView::Launch(v.query))
                } else {
                    (v, EffectView::Quit)
                }
            },
            Action::Tab => {
                if names.len() > 0 {
                    (
                        SessionView {
                            query: names[v.selected],
                            caret: names[v.selected].len() as int,
                            browsing: false,
                            ..v
                        },
                        EffectView::Nothing,
                    )
                } else {
                    (v, EffectView::Nothing)
                }
            },
            Action::Delete => {
                if names.len() > 0 && freq_get(fm, names[v.selected]) > 0 {
                    (SessionView { confirm: Some(names[v.selected]), ..v }, EffectView::Nothing)
                } else {
                    (v, EffectView::Nothing)
                }
            },
            Action::Insert(c) => (
                SessionView {
                    query: v.query.insert(v.caret, c),
                    caret: v.caret + 1,
                    browsing: false,
                    selected: 0,
                    scroll_offset: 0,
                    ..v
                },
                EffectView::Nothing,
            ),
            Action::Backspace => {
                if v.caret > 0 {
                    (
                        SessionView {
                            query: v.query.remove(v.caret - 1),
                            caret: v.caret - 1,
                            browsing: false,
                            selected: 0,
                            scroll_offset: 0,
                            ..v
                        },
                        EffectView::Nothing,
                    )
                } else {
                    (v, EffectView::Nothing)
                }
            },
            Action::Left => {
                if v.browsing {
                    if v.selected > 1 {
                        let ns = v.selected - 1;
                        if ns < v.scroll_offset {
                            let sp = page_start_of(widths, ns, avail);
                            let pe = page_end(widths, sp, avail);
                            (
                                SessionView {
                                    selected: ns,
                                    scroll_offset: sp,
                                    last_visible: pe,
                                    page_size: pe - sp + 1,
                                    ..v
                                },
                                EffectView::Nothing,
                            )
                        } else {
                            (SessionView { selected: ns, ..v }, EffectView::Nothing)
                        }
                    } else {
                        (
                            SessionView { browsing: false, selected: 0, scroll_offset: 0, ..v },
                            EffectView::Nothing,
                        )
                    }
                } else if v.caret > 0 {
                    (SessionView { caret: v.caret - 1, ..v }, EffectView::Nothing)
                } else {
                    (v, EffectView::Nothing)
                }
            },
            Action::Right => {
                if v.browsing {
                    if v.selected < v.last_visible {
                        (SessionView { selected: v.selected + 1, ..v }, EffectView::Nothing)
                    } else if v.last_visible + 1 < names.len() {
                        let sp = v.last_visible + 1;
                        let pe = page_end(widths, sp, avail);
                        (
                            SessionView {
                                scroll_offset: sp,
                                selected: sp,
                                last_visible: pe,
                                page_size: pe - sp + 1,
                                ..v
                            },
                            EffectView::Nothing,
                        )
                    } else {
                        (v, EffectView::Nothing)
                    }
                } else if v.caret == v.query.len() && names.len() > 1 {
                    let pe0 = page_end(widths, 0, avail);
                    if pe0 >= 1 {
                        (
                            SessionView {
                                browsing: true,
                                selected: 1,
                                scroll_offset: 0,
                                last_visible: pe0,
                                page_size: pe0 + 1,
                                ..v
                            },
                            EffectView::Nothing,
                        )
                    } else {
                        let pe1 = page_end(widths, 1, avail);
                        (
                            SessionView {
                                browsing: true,
                                selected: 1,
                                scroll_offset: 1,
                                last_visible: pe1,
                                page_size: pe1,
                                ..v
                            },
                            EffectView::Nothing,
                        )
                    }
                } else if v.caret < v.query.len() {
                    (SessionView { caret: v.caret + 1, ..v }, EffectView::Nothing)
                } else {
                    (v, EffectView::Nothing)
                }
            },
        },
    }
}

/// Pagination invariant: every transition preserves the session invariant; in
/// particular, while browsing, `scroll_offset <= selected <= last_visible`
/// holds after the step.
pub proof fn lemma_step_preserves_inv(
    v: SessionView,
    a: Action,
    names: Seq<Seq<char>>,
    widths: Seq<u64>,
    avail: int,
    fm: Map<Seq<char>, u32>,
)
    requires
        session_inv(v, names.len() as int),
        widths.len() == names.len(),
    ensures
        session_inv(step(v, a, names, widths, avail, fm).0, names.len() as int),
{
    let v2 = step(v, a, names, widths, avail, fm).0;
    if v.confirm is None {
        match a {
            Action::Left => {
                if v.browsing && v.selected > 1 && v.selected - 1 < v.scroll_offset {
                    lemma_page_start_from_bounds(widths, 0, v.selected - 1, avail);
                }
            },
            Action::Right => {
                if v.browsing && !(v.selected < v.last_visible) && v.last_visible + 1
                    < names.len() {
                    lemma_extend_page_bounds(
                        widths,
                        v.last_visible + 1,
                        avail - widths[v.last_visible + 1],
                    );
                } else if !v.browsing && v.caret == v.query.len() && names.len() > 1 {
                    lemma_extend_page_bounds(widths, 0, avail - widths[0]);
                    lemma_extend_page_bounds(widths, 1, avail - widths[1]);
                }
            },
            _ => {},
        }
    }
}

/// The state after a whole sequence of actions.
pub open spec fn run_steps(
    v: SessionView,
    acts: Seq<Action>,
    names: Seq<Seq<char>>,
    widths: Seq<u64>,
    avail: int,
    fm: Map<Seq<char>, u32>,
) -> SessionView
    decreases acts.len(),
{
    if acts.len() == 0 {
        v
    } else {
        run_steps(step(v, acts[0], names, widths, avail, fm).0, acts.drop_first(), names, widths, avail, fm)
    }
}

/// Pagination invariant over whole histories: from any valid state, any
/// sequence of actions leaves the invariant standing.
pub proof fn lemma_run_preserves_inv(
    v: SessionView,
    acts: Seq<Action>,
    names: Seq<Seq<char>>,
    widths: Seq<u64>,
    avail: int,
    fm: Map<Seq<char>, u32>,
)
    requires
        session_inv(v, names.len() as int),
        widths.len() == names.len(),
    ensures
        session_inv(run_steps(v, acts, names, widths, avail, fm), names.len() as int),
    decreases acts.len(),
{
    if acts.len() > 0 {
        lemma_step_preserves_inv(v, acts[0], names, widths, avail, fm);
        lemma_run_preserves_inv(
            step(v, acts[0], names, widths, avail, fm).0,
            acts.drop_first(),
            names,
            widths,
            avail,
            fm,
        );
    }
}

impl SessionState {
    /// A fresh session: editing an empty query.
    pub fn new() -> (r: SessionState)
        ensures
            r@.query.len() == 0,
            r@.caret == 0,
            !r@.browsing,
            r@.confirm is None,
            r@.selected == 0,
            r@.scroll_offset == 0,
            forall|n: int| n >= 0 ==> session_inv(r@, n),
    {
        SessionState {
            query: Vec::new(),
            caret: 0,
            browsing: false,
            delete_confirm: None,
            selected: 0,
            scroll_offset: 0,
            last_visible: 0,
            page_size: 0,
        }
    }

    /// Re-establishes the invariant after the result list changed: the
    /// selection is kept when still in range and clamped to the last result
    /// otherwise; while browsing, the page is re-walked so the selection lies
    /// on it.
    pub fn clamp_to_results(&mut self, results_len: usize, widths: &Vec<u64>, avail: u64)
        requires
            old(self)@.caret <= old(self)@.query.len(),
            widths@.len() == results_len,
        ensures
            session_inv(final(self)@, results_len as int),
            final(self)@.query == old(self)@.query,
            final(self)@.caret == old(self)@.caret,
            final(self)@.confirm == old(self)@.confirm,
            results_len > 0 && old(self)@.selected < results_len ==> final(self)@.selected
                == old(self)@.selected,
            results_len > 0 && old(self)@.selected >= results_len ==> final(self)@.selected
                == results_len - 1,
    {
        if results_len == 0 {
            self.selected = 0;
            self.scroll_offset = 0;
            self.last_visible = 0;
            self.browsing = false;
            return ;
        }
        if self.selected >= results_len {
            self.selected = results_len - 1;
        }
        if self.scroll_offset >= results_len {
            self.scroll_offset = 0;
        }
        if self.browsing {
            let sp = find_page_containing(widths, self.selected, avail);
            let pe = compute_page_end(widths, sp, avail);
            self.scroll_offset = sp;
            self.last_visible = pe;
            self.page_size = pe - sp + 1;
        }
    }

    /// Recomputes the rendered page after layout: the page begins at the
    /// scroll position, ends where the strip width runs out, and always holds
    /// at least one candidate, even one that overflows.
    pub fn update_page(&mut self, results_len: usize, widths: &Vec<u64>, avail: u64)
        requires
            session_inv(old(self)@, results_len as int),
            widths@.len() == results_len,
        ensures
            session_inv(final(self)@, results_len as int),
            final(self)@.query == old(self)@.query,
            final(self)@.caret == old(self)@.caret,
            final(self)@.confirm == old(self)@.confirm,
            final(self)@.browsing == old(self)@.browsing,
            final(self)@.selected == old(self)@.selected,
            results_len > 0 ==> final(self)@.last_visible == page_end(
                widths@,
                final(self)@.scroll_offset,
                avail as int,
            ),
            results_len > 0 ==> final(self)@.page_size == final(self)@.last_visible - final(
                self)@.scroll_offset + 1,
            results_len > 0 ==> final(self)@.page_size >= 1,
    {
        if results_len == 0 {
            return ;
        }
        if self.browsing {
            let sp = find_page_containing(widths, self.selected, avail);
            let pe = compute_page_end(widths, sp, avail);
            self.scroll_offset = sp;
            self.last_visible = pe;
            self.page_size = pe - sp + 1;
        } else {
            let pe = compute_page_end(widths, self.scroll_offset, avail);
            self.last_visible = pe;
            let ps = pe - self.scroll_offset + 1;
            self.page_size = ps;
        }
    }

    /// Applies one decoded key action; returns what the session loop must do.
    pub fn handle_action(
        &mut self,
        a: Action,
        results: &Vec<FilteredApp>,
        widths: &Vec<u64>,
        avail: u64,
        freq: &Frequency,
    ) -> (eff: Effect)
        requires
            session_inv(old(self)@, results@.len() as int),
            widths@.len() == results@.len(),
            freq.wf(),
        ensures
            session_inv(final(self)@, results@.len() as int),
            (final(self)@, effect_view(eff)) == step(
                old(self)@,
                a,
                result_names(results@),
                widths@,
                avail as int,
                freq@,
            ),
    {
        proof {
            lemma_step_preserves_inv(
                old(self)@,
                a,
                result_names(results@),
                widths@,
                avail as int,
                freq@,
            );
        }
        let confirming = self.delete_confirm.is_some();
        if confirming {
            match a {
                Action::Insert(c) => {
                    if c == 'y' || c == 'Y' {
                        let name = match self.delete_confirm.take() {
                            Some(n) => n,
                            None => unreached(),
                        };
                        self.browsing = false;
                        return Effect::RemoveEntry(name);
                    } else if c == 'n' || c == 'N' {
                        self.delete_confirm = None;
                        return Effect::Nothing;
                    } else {
                        return Effect::Nothing;
                    }
                },
                Action::Enter => {
                    let name = match self.delete_confirm.take() {
                        Some(n) => n,
                        None => unreached(),
                    };
                    self.browsing = false;
                    return Effect::RemoveEntry(name);
                },
                Action::Escape => {
                    self.delete_confirm = None;
                    return Effect::Nothing;
                },
                _ => {
                    return Effect::Nothing;
                },
            }
        }
        match a {
            Action::Escape => Effect::Quit,
            Action::Enter => {
                if results.len() > 0 {
                    Effect::Launch(results[self.selected].name.clone())
                } else {
                    let mut blank = true;
                    let mut i: usize = 0;
                    while i < self.query.len()
                        invariant
                            i <= self.query@.len(),
                            blank == is_blank(self.query@.subrange(0, i as int)),
                        decreases self.query@.len() - i,
                    {
                        let sp = crate::text::is_space(self.query[i]);
                        proof {
                            let pre = self.query@.subrange(0, i as int);
                            let post = self.query@.subrange(0, i + 1);
                            assert(post[i as int] == self.query@[i as int]);
                            if blank && sp {
                                assert forall|j: int| 0 <= j < post.len() implies is_space_char(
                                    #[trigger] post[j],
                                ) by {
                                    if j < i {
                                        assert(post[j] == pre[j]);
                                    }
                                }
                            } else if !blank {
                                let w = choose|j: int|
                                    0 <= j < pre.len() && !is_space_char(#[trigger] pre[j]);
                                assert(post[w] == pre[w]);
                                assert(!is_blank(post));
                            } else {
                                assert(!is_space_char(post[i as int]));
                                assert(!is_blank(post));
                            }
                        }
                        if !sp {
                            blank = false;
                        }
                        i = i + 1;
                    }
                    proof {
                        assert(self.query@.subrange(0, self.query@.len() as int) =~= self.query@);
                    }
                    if !blank {
                        Effect::Launch(crate::text::string_of(&self.query))
                    } else {
                        Effect::Quit
                    }
                }
            },
            Action::Tab => {
                if results.len() > 0 {
                    let name = &results[self.selected].name;
                    self.query = crate::text::chars_of(name.as_str());
                    self.caret = self.query.len();
                    self.browsing = false;
                }
                Effect::Nothing
            },
            Action::Delete => {
                if results.len() > 0 {
                    let name = &results[self.selected].name;
                    if freq.get(name) > 0 {
                        self.delete_confirm = Some(name.clone());
                    }
                }
                Effect::Nothing
            },
            Action::Insert(c) => {
                self.query.insert(self.caret, c);
                let qlen = self.query.len();
                proof {
                    assert(self.caret < qlen);
                }
                self.caret = self.caret + 1;
                self.browsing = false;
                self.selected = 0;
                self.scroll_offset = 0;
                Effect::Nothing
            },
            Action::Backspace => {
                if self.caret > 0 {
                    self.query.remove(self.caret - 1);
                    self.caret = self.caret - 1;
                    self.browsing = false;
                    self.selected = 0;
                    self.scroll_offset = 0;
                }
                Effect::Nothing
            },
            Action::Left => {
                if self.browsing {
                    if self.selected > 1 {
                        let ns = self.selected - 1;
                        if ns < self.scroll_offset {
                            let wlen = widths.len();
                            let sp = find_page_containing(widths, ns, avail);
                            let pe = compute_page_end(widths, sp, avail);
                            self.selected = ns;
                            self.scroll_offset = sp;
                            self.last_visible = pe;
                            self.page_size = pe - sp + 1;
                        } else {
                            self.selected = ns;
                        }
                    } else {
                        self.browsing = false;
                        self.selected = 0;
                        self.scroll_offset = 0;
                    }
                } else if self.caret > 0 {
                    self.caret = self.caret - 1;
                }
                Effect::Nothing
            },
            Action::Right => {
                if self.browsing {
                    if self.selected < self.last_visible {
                        self.selected = self.selected + 1;
                    } else if self.last_visible < results.len() - 1 {
                        let wlen = widths.len();
                        let sp = self.last_visible + 1;
                        let pe = compute_page_end(widths, sp, avail);
                        self.scroll_offset = sp;
                        self.selected = sp;
                        self.last_visible = pe;
                        self.page_size = pe - sp + 1;
                    }
                } else if self.caret == self.query.len() && results.len() > 1 {
                    let pe0 = compute_page_end(widths, 0, avail);
                    if pe0 >= 1 {
                        self.browsing = true;
                        self.selected = 1;
                        self.scroll_offset = 0;
                        self.last_visible = pe0;
                        self.page_size = pe0 + 1;
                    } else {
                        let pe1 = compute_page_end(widths, 1, avail);
                        self.browsing = true;
                        self.selected = 1;
                        self.scroll_offset = 1;
                        self.last_visible = pe1;
                        self.page_size = pe1;
                    }
                } else if self.caret < self.query.len() {
                    self.caret = self.caret + 1;
                }
                Effect::Nothing
            },
        }
    }
}

} // verus!
