//! The codec between a [`Workflow`](crate::Workflow) value and its text
//! document.
//!
//! The document is a fixed-layout YAML subset: a mapping with the keys
//! `name`, `on` and `jobs`, where `jobs` holds the single job `build`, and
//! `build` holds `runs_on` and the ordered `steps` sequence. Each step is
//! either `{uses}` or `{name, run}`, told apart by which keys are present.
//!
//! The serializer renders the top-level `on` key quoted, because the bare
//! token is reserved in the target grammar; [`normalize`] rewrites that one
//! key to its bare form and touches nothing else. The parser accepts the key
//! in either form.

use vstd::prelude::*;
use vstd::string::StrSliceExecFns;
use vstd::string::StringExecFns;

use crate::errors::DecodingError;
use crate::errors::EncodingError;
use crate::text::first_nl;
use crate::text::join_lines;
use crate::text::lemma_first_nl_bounds;
use crate::text::lemma_first_nl_concat;
use crate::text::lemma_first_nl_line_free;
use crate::text::lemma_first_nl_at;
use crate::text::lemma_join_split;
use crate::text::lemma_split_join;
use crate::text::line_free;
use crate::text::split_lines;
use crate::Build;
use crate::BuildView;
use crate::Jobs;
use crate::JobsView;
use crate::Steps;
use crate::StepsView;
use crate::Workflow;
use crate::WorkflowView;

verus! {

/// The `name` key of the workflow mapping, with its separator.
pub open spec fn name_prefix() -> Seq<char> {
    seq!['n', 'a', 'm', 'e', ':', ' ']
}

/// The quoted rendering of the reserved `on` key, with its separator.
pub open spec fn quoted_on_prefix() -> Seq<char> {
    seq!['"', 'o', 'n', '"', ':', ' ']
}

/// The bare rendering of the `on` key, with its separator.
pub open spec fn bare_on_prefix() -> Seq<char> {
    seq!['o', 'n', ':', ' ']
}

/// The line introducing the `jobs` mapping.
pub open spec fn jobs_marker() -> Seq<char> {
    seq!['j', 'o', 'b', 's', ':']
}

/// The line introducing the single `build` job.
pub open spec fn build_marker() -> Seq<char> {
    seq![' ', ' ', 'b', 'u', 'i', 'l', 'd', ':']
}

/// The `runs_on` key of the build mapping, with its indentation.
pub open spec fn runs_on_prefix() -> Seq<char> {
    seq![' ', ' ', ' ', ' ', 'r', 'u', 'n', 's', '_', 'o', 'n', ':', ' ']
}

/// The line introducing the `steps` sequence.
pub open spec fn steps_marker() -> Seq<char> {
    seq![' ', ' ', ' ', ' ', 's', 't', 'e', 'p', 's', ':']
}

/// The first line of a sequence item carrying the `uses` key.
pub open spec fn uses_item_prefix() -> Seq<char> {
    seq![' ', ' ', ' ', ' ', '-', ' ', 'u', 's', 'e', 's', ':', ' ']
}

/// The first line of a sequence item carrying the `name` key.
pub open spec fn name_item_prefix() -> Seq<char> {
    seq![' ', ' ', ' ', ' ', '-', ' ', 'n', 'a', 'm', 'e', ':', ' ']
}

/// The first line of a sequence item carrying the `run` key.
pub open spec fn run_item_prefix() -> Seq<char> {
    seq![' ', ' ', ' ', ' ', '-', ' ', 'r', 'u', 'n', ':', ' ']
}

/// The continuation line of a sequence item carrying the `run` key.
pub open spec fn run_cont_prefix() -> Seq<char> {
    seq![' ', ' ', ' ', ' ', ' ', ' ', 'r', 'u', 'n', ':', ' ']
}

/// The continuation line of a sequence item carrying the `name` key.
pub open spec fn name_cont_prefix() -> Seq<char> {
    seq![' ', ' ', ' ', ' ', ' ', ' ', 'n', 'a', 'm', 'e', ':', ' ']
}

/// Rewrites one line: a line keyed by the quoted `on` rendering becomes the
/// same line keyed by the bare rendering; every other line stays as it is.
pub open spec fn fix_line(l: Seq<char>) -> Seq<char> {
    if quoted_on_prefix().is_prefix_of(l) {
        bare_on_prefix() + l.skip(quoted_on_prefix().len() as int)
    } else {
        l
    }
}

/// The normalized form of a text: every line rewritten by [`fix_line`], the
/// line structure kept as it is.
pub open spec fn normalize_text(t: Seq<char>) -> Seq<char>
    decreases t.len(),
{
    let j = first_nl(t);
    if j >= t.len() {
        fix_line(t)
    } else {
        fix_line(t.subrange(0, j as int)) + seq!['\n'] + normalize_text(t.skip(j as int + 1))
    }
}

/// Holds when a step's strings can be carried on one document line each.
pub open spec fn step_encodable(s: StepsView) -> bool {
    match s {
        StepsView::Uses { uses } => line_free(uses),
        StepsView::Run { name, run } => line_free(name) && line_free(run),
    }
}

/// Holds when every string of the workflow can be carried on one document
/// line: none of them contains a line feed.
pub open spec fn encodable(v: WorkflowView) -> bool {
    &&& line_free(v.name)
    &&& line_free(v.on)
    &&& line_free(v.jobs.build.runs_on)
    &&& forall|i: int|
        0 <= i < v.jobs.build.steps.len() ==> step_encodable(#[trigger] v.jobs.build.steps[i])
}

/// The document lines of one step: one line for a `uses` step, a `name` line
/// and a `run` continuation line for a run step.
pub open spec fn step_lines(s: StepsView) -> Seq<Seq<char>> {
    match s {
        StepsView::Uses { uses } => seq![uses_item_prefix() + uses],
        StepsView::Run { name, run } => seq![name_item_prefix() + name, run_cont_prefix() + run],
    }
}

/// The document lines of a step sequence, in order.
pub open spec fn steps_lines(ss: Seq<StepsView>) -> Seq<Seq<char>>
    decreases ss.len(),
{
    if ss.len() == 0 {
        seq![]
    } else {
        step_lines(ss[0]) + steps_lines(ss.drop_first())
    }
}

/// The six header lines of the document, with the `on` key in its quoted
/// rendering, as the serializer first produces it.
pub open spec fn header_lines(v: WorkflowView) -> Seq<Seq<char>> {
    seq![
        name_prefix() + v.name,
        quoted_on_prefix() + v.on,
        jobs_marker(),
        build_marker(),
        runs_on_prefix() + v.jobs.build.runs_on,
        steps_marker(),
    ]
}

/// All document lines of a workflow.
pub open spec fn encode_lines(v: WorkflowView) -> Seq<Seq<char>> {
    header_lines(v) + steps_lines(v.jobs.build.steps)
}

/// The serialized document of a workflow, before normalization.
pub open spec fn encode_text(v: WorkflowView) -> Seq<char> {
    join_lines(encode_lines(v))
}

/// Reads the `on` value from the document's second line, accepting the bare
/// and the quoted rendering of the key as the same logical key.
pub open spec fn parse_on_value(l: Seq<char>) -> Option<Seq<char>> {
    if bare_on_prefix().is_prefix_of(l) {
        Some(l.skip(bare_on_prefix().len() as int))
    } else if quoted_on_prefix().is_prefix_of(l) {
        Some(l.skip(quoted_on_prefix().len() as int))
    } else {
        None
    }
}

/// Parses the step item lines. An item whose key set is exactly `{uses}`
/// yields a uses step; one whose key set is exactly `{name, run}` (in either
/// order) yields a run step; any other line shape fails.
pub open spec fn parse_step_lines(ls: Seq<Seq<char>>) -> Option<Seq<StepsView>>
    decreases ls.len(),
{
    if ls.len() == 0 {
        Some(seq![])
    } else if uses_item_prefix().is_prefix_of(ls[0]) {
        match parse_step_lines(ls.drop_first()) {
            Some(rest) => Some(
                seq![StepsView::Uses { uses: ls[0].skip(uses_item_prefix().len() as int) }] + rest,
            ),
            None => None,
        }
    } else if name_item_prefix().is_prefix_of(ls[0]) {
        if ls.len() >= 2 && run_cont_prefix().is_prefix_of(ls[1]) {
            match parse_step_lines(ls.skip(2)) {
                Some(rest) => Some(
                    seq![
                        StepsView::Run {
                            name: ls[0].skip(name_item_prefix().len() as int),
                            run: ls[1].skip(run_cont_prefix().len() as int),
                        },
                    ] + rest,
                ),
                None => None,
            }
        } else {
            None
        }
    } else if run_item_prefix().is_prefix_of(ls[0]) {
        if ls.len() >= 2 && name_cont_prefix().is_prefix_of(ls[1]) {
            match parse_step_lines(ls.skip(2)) {
                Some(rest) => Some(
                    seq![
                        StepsView::Run {
                            name: ls[1].skip(name_cont_prefix().len() as int),
                            run: ls[0].skip(run_item_prefix().len() as int),
                        },
                    ] + rest,
                ),
                None => None,
            }
        } else {
            None
        }
    } else {
        None
    }
}

/// Parses a document into a workflow model: the six header lines in their
/// fixed layout, then the step items. Fails on any other shape.
pub open spec fn decode_text(t: Seq<char>) -> Option<WorkflowView> {
    let ls = split_lines(t);
    if ls.len() < 6 {
        None
    } else if !name_prefix().is_prefix_of(ls[0]) {
        None
    } else if parse_on_value(ls[1]) is None {
        None
    } else if ls[2] != jobs_marker() {
        None
    } else if ls[3] != build_marker() {
        None
    } else if !runs_on_prefix().is_prefix_of(ls[4]) {
        None
    } else if ls[5] != steps_marker() {
        None
    } else {
        match parse_step_lines(ls.skip(6)) {
            Some(steps) => Some(
                WorkflowView {
                    name: ls[0].skip(name_prefix().len() as int),
                    on: parse_on_value(ls[1])->0,
                    jobs: JobsView {
                        build: BuildView { runs_on: ls[4].skip(runs_on_prefix().len() as int), steps },
                    },
                },
            ),
            None => None,
        }
    }
}

/// Rewriting a line never introduces a line feed.
pub proof fn lemma_fix_line_free(l: Seq<char>)
    requires
        line_free(l),
    ensures
        line_free(fix_line(l)),
{
    if quoted_on_prefix().is_prefix_of(l) {
        let r = fix_line(l);
        assert forall|i: int| 0 <= i < r.len() implies r[i] != '\n' by {
            if i >= bare_on_prefix().len() {
                assert(r[i] == l[i + 2]);
            }
        }
    }
}

/// Rewriting a line twice is the same as rewriting it once: the bare key the
/// rewrite produces no longer matches the quoted rendering.
pub proof fn lemma_fix_line_idempotent(l: Seq<char>)
    ensures
        fix_line(fix_line(l)) == fix_line(l),
{
    if quoted_on_prefix().is_prefix_of(l) {
        let r = fix_line(l);
        if quoted_on_prefix().is_prefix_of(r) {
            assert(r[0] == '"');
            assert(r[0] == 'o');
        }
    }
}

/// Normalization is idempotent: a second pass finds no quoted `on` key left
/// to rewrite.
pub proof fn lemma_normalize_idempotent_text(t: Seq<char>)
    ensures
        normalize_text(normalize_text(t)) == normalize_text(t),
    decreases t.len(),
{
    lemma_first_nl_bounds(t);
    let j = first_nl(t);
    if j >= t.len() {
        lemma_fix_line_free(t);
        lemma_first_nl_line_free(fix_line(t));
        lemma_fix_line_idempotent(t);
    } else {
        let l = t.subrange(0, j as int);
        let rest = t.skip(j as int + 1);
        lemma_normalize_idempotent_text(rest);
        lemma_fix_line_free(l);
        lemma_first_nl_concat(fix_line(l), normalize_text(rest));
        lemma_fix_line_idempotent(l);
        assert(normalize_text(normalize_text(t)) == fix_line(fix_line(l)) + seq!['\n']
            + normalize_text(normalize_text(rest)));
    }
}

/// Normalizing a join of line-feed-free lines rewrites each line in place.
pub proof fn lemma_normalize_join(ls: Seq<Seq<char>>)
    requires
        ls.len() >= 1,
        forall|i: int| 0 <= i < ls.len() ==> line_free(#[trigger] ls[i]),
    ensures
        normalize_text(join_lines(ls)) == join_lines(ls.map_values(|l: Seq<char>| fix_line(l))),
    decreases ls.len(),
{
    let fixed = ls.map_values(|l: Seq<char>| fix_line(l));
    if ls.len() == 1 {
        lemma_first_nl_line_free(ls[0]);
        assert(join_lines(fixed) == fixed[0]);
    } else {
        let rest = ls.drop_first();
        lemma_normalize_join(rest);
        let t = join_lines(ls);
        lemma_first_nl_concat(ls[0], join_lines(rest));
        assert(rest.map_values(|l: Seq<char>| fix_line(l)) =~= fixed.drop_first());
        assert(join_lines(fixed) == fixed[0] + seq!['\n'] + join_lines(fixed.drop_first()));
        assert(normalize_text(t) == fix_line(ls[0]) + seq!['\n'] + normalize_text(
            join_lines(rest),
        ));
    }
}

/// A line made of a key prefix and a value starts with that prefix, and the
/// value is what stands after it.
pub proof fn lemma_prefix_value(p: Seq<char>, v: Seq<char>)
    ensures
        p.is_prefix_of(p + v),
        (p + v).skip(p.len() as int) == v,
{
    assert(p =~= (p + v).subrange(0, p.len() as int));
    assert((p + v).skip(p.len() as int) =~= v);
}

/// Every line of an encodable step sequence is line-feed free, starts with a
/// blank, and is at least as long as the shortest item prefix.
pub proof fn lemma_steps_lines_shape(ss: Seq<StepsView>)
    requires
        forall|i: int| 0 <= i < ss.len() ==> step_encodable(#[trigger] ss[i]),
    ensures
        forall|i: int|
            0 <= i < steps_lines(ss).len() ==> line_free(#[trigger] steps_lines(ss)[i]),
        forall|i: int|
            0 <= i < steps_lines(ss).len() ==> (#[trigger] steps_lines(ss)[i]).len() >= 11
                && steps_lines(ss)[i][0] == ' ',
    decreases ss.len(),
{
    if ss.len() > 0 {
        assert(step_encodable(ss[0]));
        assert forall|i: int| 0 <= i < ss.drop_first().len() implies step_encodable(
            #[trigger] ss.drop_first()[i],
        ) by {
            assert(ss.drop_first()[i] == ss[i + 1]);
        }
        lemma_steps_lines_shape(ss.drop_first());
        let head = step_lines(ss[0]);
        let tail = steps_lines(ss.drop_first());
        assert forall|i: int| 0 <= i < steps_lines(ss).len() implies line_free(
            #[trigger] steps_lines(ss)[i],
        ) && steps_lines(ss)[i].len() >= 11 && steps_lines(ss)[i][0] == ' ' by {
            if i < head.len() {
                assert(steps_lines(ss)[i] == head[i]);
                match ss[0] {
                    StepsView::Uses { uses } => {
                        assert(head[i] == uses_item_prefix() + uses);
                        assert forall|k: int| 0 <= k < head[i].len() implies head[i][k]
                            != '\n' by {
                            if k >= uses_item_prefix().len() {
                                assert(head[i][k] == uses[k - uses_item_prefix().len()]);
                            }
                        }
                    },
                    StepsView::Run { name, run } => {
                        if i == 0 {
                            assert(head[i] == name_item_prefix() + name);
                            assert forall|k: int| 0 <= k < head[i].len() implies head[i][k]
                                != '\n' by {
                                if k >= name_item_prefix().len() {
                                    assert(head[i][k] == name[k - name_item_prefix().len()]);
                                }
                            }
                        } else {
                            assert(head[i] == run_cont_prefix() + run);
                            assert forall|k: int| 0 <= k < head[i].len() implies head[i][k]
                                != '\n' by {
                                if k >= run_cont_prefix().len() {
                                    assert(head[i][k] == run[k - run_cont_prefix().len()]);
                                }
                            }
                        }
                    },
                }
            } else {
                assert(steps_lines(ss)[i] == tail[i - head.len()]);
            }
        }
    }
}

/// Appending one step to a sequence appends its lines to the sequence's
/// lines.
pub proof fn lemma_steps_lines_snoc(ss: Seq<StepsView>, x: StepsView)
    ensures
        steps_lines(ss.push(x)) == steps_lines(ss) + step_lines(x),
    decreases ss.len(),
{
    if ss.len() == 0 {
        assert(ss.push(x).drop_first() =~= Seq::<StepsView>::empty());
        assert(ss.push(x)[0] == x);
        assert(steps_lines(ss.push(x)) == step_lines(x) + steps_lines(Seq::<StepsView>::empty()));
        assert(steps_lines(ss) =~= Seq::<Seq<char>>::empty());
        assert(step_lines(x) + Seq::<Seq<char>>::empty() =~= step_lines(x));
        assert(Seq::<Seq<char>>::empty() + step_lines(x) =~= step_lines(x));
    } else {
        lemma_steps_lines_snoc(ss.drop_first(), x);
        assert(ss.push(x).drop_first() =~= ss.drop_first().push(x));
        assert(ss.push(x)[0] == ss[0]);
        assert(steps_lines(ss.push(x)) == step_lines(ss[0]) + steps_lines(ss.drop_first().push(x)));
        vstd::seq_lib::lemma_concat_associative(
            step_lines(ss[0]),
            steps_lines(ss.drop_first()),
            step_lines(x),
        );
        assert(steps_lines(ss.push(x)) == steps_lines(ss) + step_lines(x));
    }
}

/// Parsing the lines an encodable step sequence produces gives that sequence
/// back.
pub proof fn lemma_parse_steps_inverse(ss: Seq<StepsView>)
    ensures
        parse_step_lines(steps_lines(ss)) == Some(ss),
    decreases ss.len(),
{
    if ss.len() == 0 {
        assert(parse_step_lines(steps_lines(ss)) == Some(Seq::<StepsView>::empty()));
        assert(Seq::<StepsView>::empty() =~= ss);
    } else {
        let rest = ss.drop_first();
        lemma_parse_steps_inverse(rest);
        let ls = steps_lines(ss);
        match ss[0] {
            StepsView::Uses { uses } => {
                let l = uses_item_prefix() + uses;
                assert(ls[0] == l);
                lemma_prefix_value(uses_item_prefix(), uses);
                assert(ls.drop_first() =~= steps_lines(rest));
                let parsed = StepsView::Uses { uses: ls[0].skip(uses_item_prefix().len() as int) };
                assert(parsed == ss[0]);
                assert(seq![parsed] + rest =~= ss);
            },
            StepsView::Run { name, run } => {
                let l0 = name_item_prefix() + name;
                let l1 = run_cont_prefix() + run;
                assert(ls[0] == l0 && ls[1] == l1);
                lemma_prefix_value(name_item_prefix(), name);
                lemma_prefix_value(run_cont_prefix(), run);
                if uses_item_prefix().is_prefix_of(l0) {
                    assert(l0[6] == uses_item_prefix()[6]);
                    assert(l0[6] == name_item_prefix()[6]);
                    assert(false);
                }
                assert(ls.skip(2) =~= steps_lines(rest));
                let parsed = StepsView::Run {
                    name: ls[0].skip(name_item_prefix().len() as int),
                    run: ls[1].skip(run_cont_prefix().len() as int),
                };
                assert(parsed == ss[0]);
                assert(seq![parsed] + rest =~= ss);
            },
        }
    }
}

/// Decoding the join of the fixed header lines and an encodable step
/// sequence's lines reconstructs the workflow, whichever rendering of the
/// `on` key the second line carries.
pub proof fn lemma_decode_of_lines(v: WorkflowView, on_l: Seq<char>)
    requires
        encodable(v),
        parse_on_value(on_l) == Some(v.on),
        line_free(on_l),
    ensures
        decode_text(
            join_lines(
                seq![
                    name_prefix() + v.name,
                    on_l,
                    jobs_marker(),
                    build_marker(),
                    runs_on_prefix() + v.jobs.build.runs_on,
                    steps_marker(),
                ] + steps_lines(v.jobs.build.steps),
            ),
        ) == Some(v),
{
    let steps = v.jobs.build.steps;
    let ls = seq![
        name_prefix() + v.name,
        on_l,
        jobs_marker(),
        build_marker(),
        runs_on_prefix() + v.jobs.build.runs_on,
        steps_marker(),
    ] + steps_lines(steps);
    lemma_steps_lines_shape(steps);
    lemma_prefix_value(name_prefix(), v.name);
    lemma_prefix_value(runs_on_prefix(), v.jobs.build.runs_on);
    assert forall|i: int| 0 <= i < ls.len() implies line_free(#[trigger] ls[i]) by {
        if i == 0 {
            assert forall|k: int| 0 <= k < ls[0].len() implies ls[0][k] != '\n' by {
                if k >= name_prefix().len() {
                    assert(ls[0][k] == v.name[k - name_prefix().len()]);
                }
            }
        } else if i == 4 {
            assert forall|k: int| 0 <= k < ls[4].len() implies ls[4][k] != '\n' by {
                if k >= runs_on_prefix().len() {
                    assert(ls[4][k] == v.jobs.build.runs_on[k - runs_on_prefix().len()]);
                }
            }
        } else if i >= 6 {
            assert(ls[i] == steps_lines(steps)[i - 6]);
        }
    }
    lemma_split_join(ls);
    assert(ls.skip(6) =~= steps_lines(steps));
    lemma_parse_steps_inverse(steps);
    let decoded = decode_text(join_lines(ls));
    assert(decoded == Some(
        WorkflowView {
            name: ls[0].skip(name_prefix().len() as int),
            on: parse_on_value(ls[1])->0,
            jobs: JobsView {
                build: BuildView { runs_on: ls[4].skip(runs_on_prefix().len() as int), steps },
            },
        },
    ));
    assert(decoded->0 == v);
}

/// Tells whether a string holds a line feed, the one character a document
/// line cannot carry.
fn contains_line_feed(s: &str) -> (b: bool)
    ensures
        b == !line_free(s@),
{
    let n = s.unicode_len();
    let mut i: usize = 0;
    while i < n
        invariant
            i <= n,
            n == s@.len(),
            forall|k: int| 0 <= k < i ==> s@[k] != '\n',
        decreases n - i,
    {
        if s.get_char(i) == '\n' {
            return true;
        }
        i += 1;
    }
    false
}

/// Tells whether `l` starts with `p`.
fn has_prefix(l: &str, p: &str) -> (b: bool)
    ensures
        b == p@.is_prefix_of(l@),
{
    let pn = p.unicode_len();
    let ln = l.unicode_len();
    if pn > ln {
        return false;
    }
    let mut i: usize = 0;
    while i < pn
        invariant
            i <= pn,
            pn == p@.len(),
            ln == l@.len(),
            pn <= ln,
            forall|k: int| 0 <= k < i ==> l@[k] == p@[k],
        decreases pn - i,
    {
        if l.get_char(i) != p.get_char(i) {
            assert(!p@.is_prefix_of(l@)) by {
                if p@.is_prefix_of(l@) {
                    assert(p@[i as int] == l@.subrange(0, p@.len() as int)[i as int]);
                }
            }
            return false;
        }
        i += 1;
    }
    assert(p@ =~= l@.subrange(0, p@.len() as int));
    true
}

/// Tells whether two strings hold the same characters.
fn text_equals(l: &str, p: &str) -> (b: bool)
    ensures
        b == (l@ == p@),
{
    let pn = p.unicode_len();
    let ln = l.unicode_len();
    if pn != ln {
        return false;
    }
    let mut i: usize = 0;
    while i < pn
        invariant
            i <= pn,
            pn == p@.len(),
            ln == l@.len(),
            pn == ln,
            forall|k: int| 0 <= k < i ==> l@[k] == p@[k],
        decreases pn - i,
    {
        if l.get_char(i) != p.get_char(i) {
            return false;
        }
        i += 1;
    }
    assert(l@ =~= p@);
    true
}

/// Copies the characters of `l` from position `k` to its end.
fn tail_from(l: &str, k: usize) -> (r: String)
    requires
        k <= l@.len(),
    ensures
        r@ == l@.skip(k as int),
{
    let n = l.unicode_len();
    let t = l.substring_char(k, n);
    t.to_owned()
}

/// Builds the line `p` followed by `v`.
fn keyed_line(p: &str, v: &str) -> (r: String)
    ensures
        r@ == p@ + v@,
{
    let mut r = p.to_owned();
    r.append(v);
    r
}

/// Joins the lines with a line feed between each pair of neighbours.
fn join(lines: &Vec<String>) -> (r: String)
    requires
        lines@.len() >= 1,
    ensures
        r@ == join_lines(lines.deep_view()),
{
    let mut out: String = lines[0].clone();
    let mut i: usize = 1;
    proof {
        assert(lines.deep_view().subrange(0, 1) =~= seq![lines.deep_view()[0]]);
    }
    while i < lines.len()
        invariant
            1 <= i <= lines.len(),
            out@ == join_lines(lines.deep_view().subrange(0, i as int)),
        decreases lines.len() - i,
    {
        out.append("\n");
        out.append(lines[i].as_str());
        proof {
            reveal_strlit("\n");
            let dv = lines.deep_view();
            let cut = dv.subrange(0, i + 1);
            lemma_join_split(cut, i as int);
            assert(cut.subrange(0, i as int) =~= dv.subrange(0, i as int));
            assert(cut.skip(i as int) =~= seq![dv[i as int]]);
            assert(join_lines(seq![dv[i as int]]) == dv[i as int]);
            assert("\n"@ =~= seq!['\n']);
            assert(out@ == join_lines(cut));
        }
        i += 1;
    }
    proof {
        assert(lines.deep_view().subrange(0, lines@.len() as int) =~= lines.deep_view());
    }
    out
}

/// Serializes a workflow to its text document, with the reserved `on` key in
/// its quoted rendering. Succeeds exactly when no string of the workflow
/// holds a line feed; the document is then the line layout
/// [`encode_text`] describes.
pub fn encode(w: &Workflow) -> (r: Result<String, EncodingError>)
    ensures
        r is Ok <==> encodable(w@),
        r is Ok ==> r->Ok_0@ == encode_text(w@),
{
    if contains_line_feed(w.name.as_str()) {
        return Err(EncodingError::new("workflow name holds a line feed"));
    }
    if contains_line_feed(w.on.as_str()) {
        return Err(EncodingError::new("workflow trigger holds a line feed"));
    }
    if contains_line_feed(w.jobs.build.runs_on.as_str()) {
        return Err(EncodingError::new("runner identifier holds a line feed"));
    }
    let steps = &w.jobs.build.steps;
    let mut lines: Vec<String> = Vec::new();
    lines.push(keyed_line("name: ", w.name.as_str()));
    lines.push(keyed_line("\"on\": ", w.on.as_str()));
    lines.push("jobs:".to_owned());
    lines.push("  build:".to_owned());
    lines.push(keyed_line("    runs_on: ", w.jobs.build.runs_on.as_str()));
    lines.push("    steps:".to_owned());
    proof {
        reveal_strlit("name: ");
        reveal_strlit("\"on\": ");
        reveal_strlit("jobs:");
        reveal_strlit("  build:");
        reveal_strlit("    runs_on: ");
        reveal_strlit("    steps:");
        assert("name: "@ =~= name_prefix());
        assert("\"on\": "@ =~= quoted_on_prefix());
        assert("jobs:"@ =~= jobs_marker());
        assert("  build:"@ =~= build_marker());
        assert("    runs_on: "@ =~= runs_on_prefix());
        assert("    steps:"@ =~= steps_marker());
        assert(lines.deep_view() =~= header_lines(w@));
        assert(steps_lines(w@.jobs.build.steps.take(0)) =~= Seq::<Seq<char>>::empty());
        assert(lines.deep_view() =~= header_lines(w@) + steps_lines(w@.jobs.build.steps.take(0)));
    }
    let ghost all = w@.jobs.build.steps;
    let mut i: usize = 0;
    while i < steps.len()
        invariant
            i <= steps.len(),
            all == w@.jobs.build.steps,
            all.len() == steps@.len(),
            forall|k: int| 0 <= k < all.len() ==> all[k] == steps@[k]@,
            forall|k: int| 0 <= k < i ==> step_encodable(#[trigger] all[k]),
            lines.deep_view() == header_lines(w@) + steps_lines(all.take(i as int)),
        decreases steps.len() - i,
    {
        let ghost prev = lines.deep_view();
        match &steps[i] {
            Steps::uses { uses } => {
                if contains_line_feed(uses.as_str()) {
                    assert(!step_encodable(all[i as int]));
                    return Err(EncodingError::new("step action reference holds a line feed"));
                }
                lines.push(keyed_line("    - uses: ", uses.as_str()));
                proof {
                    reveal_strlit("    - uses: ");
                    assert("    - uses: "@ =~= uses_item_prefix());
                    assert(lines.deep_view() =~= prev + step_lines(all[i as int]));
                }
            },
            Steps::name { name, run } => {
                if contains_line_feed(name.as_str()) {
                    assert(!step_encodable(all[i as int]));
                    return Err(EncodingError::new("step name holds a line feed"));
                }
                if contains_line_feed(run.as_str()) {
                    assert(!step_encodable(all[i as int]));
                    return Err(EncodingError::new("step command holds a line feed"));
                }
                lines.push(keyed_line("    - name: ", name.as_str()));
                lines.push(keyed_line("      run: ", run.as_str()));
                proof {
                    reveal_strlit("    - name: ");
                    reveal_strlit("      run: ");
                    assert("    - name: "@ =~= name_item_prefix());
                    assert("      run: "@ =~= run_cont_prefix());
                    assert(lines.deep_view() =~= prev + step_lines(all[i as int]));
                }
            },
        }
        proof {
            lemma_steps_lines_snoc(all.take(i as int), all[i as int]);
            assert(all.take(i as int).push(all[i as int]) =~= all.take(i + 1));
            vstd::seq_lib::lemma_concat_associative(
                header_lines(w@),
                steps_lines(all.take(i as int)),
                step_lines(all[i as int]),
            );
            assert(lines.deep_view() == header_lines(w@) + steps_lines(all.take(i + 1)));
        }
        i += 1;
    }
    proof {
        assert(all.take(all.len() as int) =~= all);
        assert(lines.deep_view() == encode_lines(w@));
    }
    Ok(join(&lines))
}

/// Rewrites the quoted rendering of the structural `on` key to its bare
/// rendering, line by line. No other line and no string value is altered,
/// and the line structure of the text is kept as it is.
pub fn normalize(s: &str) -> (r: String)
    ensures
        r@ == normalize_text(s@),
{
    let n = s.unicode_len();
    let mut out = String::new();
    let mut i: usize = 0;
    proof {
        assert(s@.skip(0) =~= s@);
    }
    loop
        invariant
            i <= n,
            n == s@.len(),
            normalize_text(s@) == out@ + normalize_text(s@.skip(i as int)),
        decreases n - i,
    {
        let mut j: usize = i;
        while j < n && s.get_char(j) != '\n'
            invariant
                i <= j <= n,
                n == s@.len(),
                forall|k: int| i <= k < j ==> s@[k] != '\n',
            decreases n - j,
        {
            j += 1;
        }
        let ghost rem = s@.skip(i as int);
        let ghost line = s@.subrange(i as int, j as int);
        proof {
            assert forall|k: int| 0 <= k < j - i implies rem[k] != '\n' by {
                assert(rem[k] == s@[i + k]);
            }
            if j < n {
                assert(rem[j - i] == s@[j as int]);
            }
            lemma_first_nl_at(rem, j - i);
            assert(rem.subrange(0, j - i) =~= line);
        }
        let line_s = s.substring_char(i, j);
        if has_prefix(line_s, "\"on\": ") {
            proof {
                reveal_strlit("\"on\": ");
                assert("\"on\": "@ =~= quoted_on_prefix());
            }
            out.append("on: ");
            let rest = s.substring_char(i + 6, j);
            out.append(rest);
            proof {
                reveal_strlit("on: ");
                assert("on: "@ =~= bare_on_prefix());
                assert(rest@ =~= line.skip(quoted_on_prefix().len() as int));
                assert(fix_line(line) == bare_on_prefix() + line.skip(
                    quoted_on_prefix().len() as int,
                ));
            }
        } else {
            out.append(line_s);
            proof {
                reveal_strlit("\"on\": ");
                assert("\"on\": "@ =~= quoted_on_prefix());
                assert(fix_line(line) == line);
            }
        }
        if j < n {
            out.append("\n");
            proof {
                reveal_strlit("\n");
                assert("\n"@ =~= seq!['\n']);
                assert(normalize_text(rem) == fix_line(line) + seq!['\n'] + normalize_text(
                    rem.skip(j - i + 1),
                ));
                assert(rem.skip(j - i + 1) =~= s@.skip(j + 1));
            }
            i = j + 1;
        } else {
            proof {
                assert(rem =~= line);
                assert(normalize_text(rem) == fix_line(line));
            }
            return out;
        }
    }
}

/// The lines of a text, each as an owned string.
fn split(s: &str) -> (r: Vec<String>)
    ensures
        r.deep_view() == split_lines(s@),
        r@.len() >= 1,
{
    let n = s.unicode_len();
    let mut r: Vec<String> = Vec::new();
    let mut i: usize = 0;
    proof {
        assert(s@.skip(0) =~= s@);
        assert(r.deep_view() =~= Seq::<Seq<char>>::empty());
    }
    loop
        invariant
            i <= n,
            n == s@.len(),
            split_lines(s@) == r.deep_view() + split_lines(s@.skip(i as int)),
        decreases n - i,
    {
        let mut j: usize = i;
        while j < n && s.get_char(j) != '\n'
            invariant
                i <= j <= n,
                n == s@.len(),
                forall|k: int| i <= k < j ==> s@[k] != '\n',
            decreases n - j,
        {
            j += 1;
        }
        let ghost rem = s@.skip(i as int);
        let ghost line = s@.subrange(i as int, j as int);
        proof {
            assert forall|k: int| 0 <= k < j - i implies rem[k] != '\n' by {
                assert(rem[k] == s@[i + k]);
            }
            if j < n {
                assert(rem[j - i] == s@[j as int]);
            }
            lemma_first_nl_at(rem, j - i);
            assert(rem.subrange(0, j - i) =~= line);
        }
        let ghost prev = r.deep_view();
        let line_s = s.substring_char(i, j);
        r.push(line_s.to_owned());
        proof {
            assert(r.deep_view() =~= prev + seq![line]);
        }
        if j < n {
            proof {
                assert(split_lines(rem) == seq![line] + split_lines(rem.skip(j - i + 1)));
                assert(rem.skip(j - i + 1) =~= s@.skip(j + 1));
                vstd::seq_lib::lemma_concat_associative(
                    prev,
                    seq![line],
                    split_lines(s@.skip(j + 1)),
                );
            }
            i = j + 1;
        } else {
            proof {
                assert(rem =~= line);
                assert(split_lines(rem) == seq![line]);
            }
            return r;
        }
    }
}

/// Parses a text document into a workflow. Succeeds exactly on the documents
/// [`decode_text`] accepts: the six header lines in their fixed layout — the
/// `on` key in its bare or its quoted rendering — followed by step items
/// whose key set is exactly `{uses}` or exactly `{name, run}`.
#[verifier::loop_isolation(false)]
pub fn decode(s: &str) -> (r: Result<Workflow, DecodingError>)
    ensures
        r is Ok <==> decode_text(s@) is Some,
        r is Ok ==> r->Ok_0@ == decode_text(s@)->0,
{
    let lines = split(s);
    let ghost ls = lines.deep_view();
    proof {
        reveal_strlit("name: ");
        reveal_strlit("on: ");
        reveal_strlit("\"on\": ");
        reveal_strlit("jobs:");
        reveal_strlit("  build:");
        reveal_strlit("    runs_on: ");
        reveal_strlit("    steps:");
        reveal_strlit("    - uses: ");
        reveal_strlit("    - name: ");
        reveal_strlit("    - run: ");
        reveal_strlit("      run: ");
        reveal_strlit("      name: ");
        assert("name: "@ =~= name_prefix());
        assert("on: "@ =~= bare_on_prefix());
        assert("\"on\": "@ =~= quoted_on_prefix());
        assert("jobs:"@ =~= jobs_marker());
        assert("  build:"@ =~= build_marker());
        assert("    runs_on: "@ =~= runs_on_prefix());
        assert("    steps:"@ =~= steps_marker());
        assert("    - uses: "@ =~= uses_item_prefix());
        assert("    - name: "@ =~= name_item_prefix());
        assert("    - run: "@ =~= run_item_prefix());
        assert("      run: "@ =~= run_cont_prefix());
        assert("      name: "@ =~= name_cont_prefix());
    }
    if lines.len() < 6 {
        return Err(DecodingError::new("document has fewer lines than the schema header"));
    }
    if !has_prefix(lines[0].as_str(), "name: ") {
        return Err(DecodingError::new("first line does not carry the name key"));
    }
    let name = tail_from(lines[0].as_str(), 6);
    let on: String;
    if has_prefix(lines[1].as_str(), "on: ") {
        on = tail_from(lines[1].as_str(), 4);
    } else if has_prefix(lines[1].as_str(), "\"on\": ") {
        on = tail_from(lines[1].as_str(), 6);
    } else {
        return Err(DecodingError::new("second line does not carry the on key"));
    }
    if !text_equals(lines[2].as_str(), "jobs:") {
        return Err(DecodingError::new("third line does not open the jobs mapping"));
    }
    if !text_equals(lines[3].as_str(), "  build:") {
        return Err(DecodingError::new("fourth line does not open the build job"));
    }
    if !has_prefix(lines[4].as_str(), "    runs_on: ") {
        return Err(DecodingError::new("fifth line does not carry the runs_on key"));
    }
    let runs_on = tail_from(lines[4].as_str(), 13);
    if !text_equals(lines[5].as_str(), "    steps:") {
        return Err(DecodingError::new("sixth line does not open the steps sequence"));
    }
    let mut steps: Vec<Steps> = Vec::new();
    let mut idx: usize = 6;
    while idx < lines.len()
        invariant
            6 <= idx <= lines.len(),
            match parse_step_lines(ls.skip(idx as int)) {
                Some(rest) => parse_step_lines(ls.skip(6)) == Some(
                    crate::steps_view(steps@) + rest,
                ),
                None => parse_step_lines(ls.skip(6)) is None,
            },
        decreases lines.len() - idx,
    {
        let ghost tail = ls.skip(idx as int);
        let ghost sv_old = crate::steps_view(steps@);
        proof {
            assert(tail[0] == ls[idx as int]);
        }
        let l = lines[idx].as_str();
        if has_prefix(l, "    - uses: ") {
            let uses_v = tail_from(l, 12);
            steps.push(Steps::uses { uses: uses_v });
            proof {
                let elem = StepsView::Uses { uses: ls[idx as int].skip(12) };
                assert(crate::steps_view(steps@) =~= sv_old + seq![elem]);
                assert(tail.drop_first() =~= ls.skip(idx as int + 1));
                match parse_step_lines(ls.skip(idx as int + 1)) {
                    Some(rest) => {
                        assert(parse_step_lines(tail) == Some(seq![elem] + rest));
                        vstd::seq_lib::lemma_concat_associative(sv_old, seq![elem], rest);
                    },
                    None => {},
                }
            }
            idx += 1;
        } else if has_prefix(l, "    - name: ") {
            if idx + 1 == lines.len() {
                assert(parse_step_lines(tail) is None);
                return Err(DecodingError::new("step entry names a command but gives none"));
            }
            let l2 = lines[idx + 1].as_str();
            proof {
                assert(tail[1] == ls[idx as int + 1]);
            }
            if !has_prefix(l2, "      run: ") {
                assert(parse_step_lines(tail) is None);
                return Err(DecodingError::new("step entry names a command but gives none"));
            }
            let name_v = tail_from(l, 12);
            let run_v = tail_from(l2, 11);
            steps.push(Steps::name { name: name_v, run: run_v });
            proof {
                let elem = StepsView::Run {
                    name: ls[idx as int].skip(12),
                    run: ls[idx as int + 1].skip(11),
                };
                assert(crate::steps_view(steps@) =~= sv_old + seq![elem]);
                assert(tail.skip(2) =~= ls.skip(idx as int + 2));
                match parse_step_lines(ls.skip(idx as int + 2)) {
                    Some(rest) => {
                        assert(parse_step_lines(tail) == Some(seq![elem] + rest));
                        vstd::seq_lib::lemma_concat_associative(sv_old, seq![elem], rest);
                    },
                    None => {},
                }
            }
            idx += 2;
        } else if has_prefix(l, "    - run: ") {
            if idx + 1 == lines.len() {
                assert(parse_step_lines(tail) is None);
                return Err(DecodingError::new("step entry gives a command but names none"));
            }
            let l2 = lines[idx + 1].as_str();
            proof {
                assert(tail[1] == ls[idx as int + 1]);
            }
            if !has_prefix(l2, "      name: ") {
                assert(parse_step_lines(tail) is None);
                return Err(DecodingError::new("step entry gives a command but names none"));
            }
            let run_v = tail_from(l, 11);
            let name_v = tail_from(l2, 12);
            steps.push(Steps::name { name: name_v, run: run_v });
            proof {
                let elem = StepsView::Run {
                    name: ls[idx as int + 1].skip(12),
                    run: ls[idx as int].skip(11),
                };
                assert(crate::steps_view(steps@) =~= sv_old + seq![elem]);
                assert(tail.skip(2) =~= ls.skip(idx as int + 2));
                match parse_step_lines(ls.skip(idx as int + 2)) {
                    Some(rest) => {
                        assert(parse_step_lines(tail) == Some(seq![elem] + rest));
                        vstd::seq_lib::lemma_concat_associative(sv_old, seq![elem], rest);
                    },
                    None => {},
                }
            }
            idx += 2;
        } else {
            assert(parse_step_lines(tail) is None);
            return Err(DecodingError::new("step entry has an unsupported key set"));
        }
    }
    proof {
        assert(ls.skip(idx as int) =~= Seq::<Seq<char>>::empty());
        assert(parse_step_lines(ls.skip(idx as int)) == Some(Seq::<StepsView>::empty()));
        assert(crate::steps_view(steps@) + Seq::<StepsView>::empty() =~= crate::steps_view(
            steps@,
        ));
    }
    let w = Workflow { name, on, jobs: Jobs { build: Build { runs_on, steps } } };
    proof {
        assert(decode_text(s@) is Some);
        assert(w@ == decode_text(s@)->0);
    }
    Ok(w)
}

/// The lines of a normalized text are the rewritten lines of the original:
/// normalization keeps the line structure and touches no line that is not
/// keyed by the quoted `on` rendering.
pub proof fn lemma_normalize_lines(t: Seq<char>)
    ensures
        split_lines(normalize_text(t)) == split_lines(t).map_values(|l: Seq<char>| fix_line(l)),
    decreases t.len(),
{
    lemma_first_nl_bounds(t);
    let j = first_nl(t);
    if j >= t.len() {
        lemma_fix_line_free(t);
        lemma_first_nl_line_free(fix_line(t));
        assert(split_lines(normalize_text(t)) =~= split_lines(t).map_values(
            |l: Seq<char>| fix_line(l),
        ));
    } else {
        let l = t.subrange(0, j as int);
        let rest = t.skip(j as int + 1);
        lemma_normalize_lines(rest);
        lemma_fix_line_free(l);
        lemma_first_nl_concat(fix_line(l), normalize_text(rest));
        assert(split_lines(normalize_text(t)) == seq![fix_line(l)] + split_lines(
            normalize_text(rest),
        ));
        assert(seq![fix_line(l)] + split_lines(rest).map_values(|m: Seq<char>| fix_line(m))
            =~= split_lines(t).map_values(|m: Seq<char>| fix_line(m)));
    }
}

} // verus!
