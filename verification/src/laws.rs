//! The laws the codec obeys, each stated over the ghost models and proved
//! from the codec's definitions.

use vstd::prelude::*;

use crate::codec::bare_on_prefix;
use crate::codec::build_marker;
use crate::codec::decode_text;
use crate::codec::encodable;
use crate::codec::encode_lines;
use crate::codec::encode_text;
use crate::codec::fix_line;
use crate::codec::jobs_marker;
use crate::codec::lemma_decode_of_lines;
use crate::codec::lemma_normalize_idempotent_text;
use crate::codec::lemma_normalize_join;
use crate::codec::lemma_normalize_lines;
use crate::codec::lemma_parse_steps_inverse;
use crate::codec::lemma_prefix_value;

use crate::codec::lemma_steps_lines_shape;
use crate::codec::name_cont_prefix;
use crate::codec::name_item_prefix;
use crate::codec::name_prefix;
use crate::codec::normalize_text;
use crate::codec::parse_step_lines;
use crate::codec::quoted_on_prefix;
use crate::codec::run_cont_prefix;
use crate::codec::run_item_prefix;
use crate::codec::runs_on_prefix;
use crate::codec::steps_lines;
use crate::codec::steps_marker;
use crate::codec::uses_item_prefix;
use crate::text::join_lines;
use crate::text::lemma_split_join;
use crate::text::line_free;
use crate::text::split_lines;
use crate::StepsView;
use crate::WorkflowView;

verus! {

/// The lines of the serialized document after normalization: the quoted `on`
/// key has become bare, every other line stands as encoded.
pub open spec fn normalized_lines(v: WorkflowView) -> Seq<Seq<char>> {
    seq![
        name_prefix() + v.name,
        bare_on_prefix() + v.on,
        jobs_marker(),
        build_marker(),
        runs_on_prefix() + v.jobs.build.runs_on,
        steps_marker(),
    ] + steps_lines(v.jobs.build.steps)
}

/// Normalizing the serialized document rewrites exactly its second line,
/// turning the quoted `on` key into the bare one.
pub proof fn lemma_normalize_encode(v: WorkflowView)
    requires
        encodable(v),
    ensures
        normalize_text(encode_text(v)) == join_lines(normalized_lines(v)),
{
    let ls = encode_lines(v);
    let steps = v.jobs.build.steps;
    lemma_steps_lines_shape(steps);
    assert forall|i: int| 0 <= i < ls.len() implies line_free(#[trigger] ls[i]) by {
        if i == 0 {
            lemma_prefix_value(name_prefix(), v.name);
            assert forall|k: int| 0 <= k < ls[0].len() implies ls[0][k] != '\n' by {
                if k >= name_prefix().len() {
                    assert(ls[0][k] == v.name[k - name_prefix().len()]);
                }
            }
        } else if i == 1 {
            assert forall|k: int| 0 <= k < ls[1].len() implies ls[1][k] != '\n' by {
                if k >= quoted_on_prefix().len() {
                    assert(ls[1][k] == v.on[k - quoted_on_prefix().len()]);
                }
            }
        } else if i == 4 {
            assert forall|k: int| 0 <= k < ls[4].len() implies ls[4][k] != '\n' by {
                if k >= runs_on_prefix().len() {
                    assert(ls[4][k] == v.jobs.build.runs_on[k - runs_on_prefix().len()]);
                }
            }
        } else if i >= 6 {
            assert(ls[i] == steps_lines(steps)[i - 6]);
        }
    }
    lemma_normalize_join(ls);
    assert forall|i: int| 0 <= i < ls.len() implies #[trigger] fix_line(ls[i])
        == normalized_lines(v)[i] by {
        if i == 1 {
            lemma_prefix_value(quoted_on_prefix(), v.on);
            assert((quoted_on_prefix() + v.on).skip(quoted_on_prefix().len() as int) == v.on);
        } else {
            if quoted_on_prefix().is_prefix_of(ls[i]) {
                if i == 0 {
                    assert(ls[0][0] == quoted_on_prefix()[0]);
                    assert(ls[0][0] == name_prefix()[0]);
                } else if i == 2 {
                    assert(ls[2].len() < quoted_on_prefix().len());
                } else if i == 3 {
                    assert(ls[3][0] == quoted_on_prefix()[0]);
                    assert(ls[3][0] == build_marker()[0]);
                } else if i == 4 {
                    assert(ls[4][0] == quoted_on_prefix()[0]);
                    assert(ls[4][0] == runs_on_prefix()[0]);
                } else if i == 5 {
                    assert(ls[5][0] == quoted_on_prefix()[0]);
                    assert(ls[5][0] == steps_marker()[0]);
                } else {
                    assert(ls[i] == steps_lines(steps)[i - 6]);
                    assert(ls[i][0] == quoted_on_prefix()[0]);
                    assert(ls[i][0] == ' ');
                }
                assert(false);
            }
        }
    }
    assert(ls.map_values(|l: Seq<char>| fix_line(l)) =~= normalized_lines(v));
}

/// Round-trip law: for every encodable workflow, serializing, normalizing
/// and parsing reconstructs the original value.
pub proof fn lemma_round_trip(v: WorkflowView)
    requires
        encodable(v),
    ensures
        decode_text(normalize_text(encode_text(v))) == Some(v),
{
    lemma_normalize_encode(v);
    lemma_prefix_value(bare_on_prefix(), v.on);
    if quoted_on_prefix().is_prefix_of(bare_on_prefix() + v.on) {
        assert((bare_on_prefix() + v.on)[0] == quoted_on_prefix()[0]);
        assert((bare_on_prefix() + v.on)[0] == bare_on_prefix()[0]);
        assert(false);
    }
    assert forall|k: int| 0 <= k < (bare_on_prefix() + v.on).len() implies (bare_on_prefix()
        + v.on)[k] != '\n' by {
        if k >= bare_on_prefix().len() {
            assert((bare_on_prefix() + v.on)[k] == v.on[k - bare_on_prefix().len()]);
        }
    }
    lemma_decode_of_lines(v, bare_on_prefix() + v.on);
}

/// The un-normalized document parses back too: the parser accepts the quoted
/// rendering of the `on` key as the same logical key.
pub proof fn lemma_decode_encode(v: WorkflowView)
    requires
        encodable(v),
    ensures
        decode_text(encode_text(v)) == Some(v),
{
    lemma_prefix_value(quoted_on_prefix(), v.on);
    if bare_on_prefix().is_prefix_of(quoted_on_prefix() + v.on) {
        assert((quoted_on_prefix() + v.on)[0] == bare_on_prefix()[0]);
        assert((quoted_on_prefix() + v.on)[0] == quoted_on_prefix()[0]);
        assert(false);
    }
    assert forall|k: int| 0 <= k < (quoted_on_prefix() + v.on).len() implies (quoted_on_prefix()
        + v.on)[k] != '\n' by {
        if k >= quoted_on_prefix().len() {
            assert((quoted_on_prefix() + v.on)[k] == v.on[k - quoted_on_prefix().len()]);
        }
    }
    lemma_decode_of_lines(v, quoted_on_prefix() + v.on);
    assert(encode_lines(v) =~= seq![
        name_prefix() + v.name,
        quoted_on_prefix() + v.on,
        jobs_marker(),
        build_marker(),
        runs_on_prefix() + v.jobs.build.runs_on,
        steps_marker(),
    ] + steps_lines(v.jobs.build.steps));
}

/// Order preservation: parsing the serialized document yields the steps
/// sequence element for element, in its original order.
pub proof fn lemma_order_preservation(v: WorkflowView)
    requires
        encodable(v),
    ensures
        decode_text(encode_text(v)) is Some,
        decode_text(encode_text(v))->0.jobs.build.steps == v.jobs.build.steps,
{
    lemma_decode_encode(v);
}

/// Idempotent normalization: normalizing any text twice produces the text
/// normalizing it once produces.
pub proof fn lemma_normalize_idempotent(t: Seq<char>)
    ensures
        normalize_text(normalize_text(t)) == normalize_text(t),
{
    lemma_normalize_idempotent_text(t);
}

/// Step exhaustiveness: an item whose key set is exactly `{uses}` parses to
/// a uses step; one whose key set is exactly `{name, run}` parses to a run
/// step, in either key order; a lone `name` or `run` key fails, a `uses` key
/// followed by a second key fails, and an item line carrying none of the
/// three keys fails.
pub proof fn lemma_step_exhaustive(u: Seq<char>, a: Seq<char>, b: Seq<char>, l: Seq<char>, rest: Seq<Seq<char>>)
    ensures
        parse_step_lines(seq![uses_item_prefix() + u]) == Some(
            seq![StepsView::Uses { uses: u }],
        ),
        parse_step_lines(seq![name_item_prefix() + a, run_cont_prefix() + b]) == Some(
            seq![StepsView::Run { name: a, run: b }],
        ),
        parse_step_lines(seq![run_item_prefix() + b, name_cont_prefix() + a]) == Some(
            seq![StepsView::Run { name: a, run: b }],
        ),
        parse_step_lines(seq![name_item_prefix() + a]) is None,
        parse_step_lines(seq![run_item_prefix() + b]) is None,
        parse_step_lines(seq![uses_item_prefix() + u, name_cont_prefix() + a]) is None,
        !uses_item_prefix().is_prefix_of(l) && !name_item_prefix().is_prefix_of(l)
            && !run_item_prefix().is_prefix_of(l) ==> parse_step_lines(seq![l] + rest) is None,
{
    reveal_with_fuel(steps_lines, 3);
    reveal_with_fuel(parse_step_lines, 3);
    lemma_parse_steps_inverse(seq![StepsView::Uses { uses: u }]);
    assert(seq![StepsView::Uses { uses: u }].drop_first() =~= Seq::<StepsView>::empty());
    assert(steps_lines(seq![StepsView::Uses { uses: u }]) =~= seq![uses_item_prefix() + u]);
    lemma_parse_steps_inverse(seq![StepsView::Run { name: a, run: b }]);
    assert(seq![StepsView::Run { name: a, run: b }].drop_first() =~= Seq::<StepsView>::empty());
    assert(steps_lines(seq![StepsView::Run { name: a, run: b }]) =~= seq![
        name_item_prefix() + a,
        run_cont_prefix() + b,
    ]);
    lemma_run_first_parses(a, b);
    lemma_lone_keys_fail(u, a, b);
    if !uses_item_prefix().is_prefix_of(l) && !name_item_prefix().is_prefix_of(l)
        && !run_item_prefix().is_prefix_of(l) {
        assert((seq![l] + rest)[0] == l);
    }
}

/// An item that writes its `run` key first and its `name` key second parses
/// to the same run step as the canonical order.
proof fn lemma_run_first_parses(a: Seq<char>, b: Seq<char>)
    ensures
        parse_step_lines(seq![run_item_prefix() + b, name_cont_prefix() + a]) == Some(
            seq![StepsView::Run { name: a, run: b }],
        ),
{
    reveal_with_fuel(parse_step_lines, 3);
    let ls = seq![run_item_prefix() + b, name_cont_prefix() + a];
    lemma_prefix_value(run_item_prefix(), b);
    lemma_prefix_value(name_cont_prefix(), a);
    if uses_item_prefix().is_prefix_of(ls[0]) {
        assert(ls[0][6] == uses_item_prefix()[6]);
        assert(ls[0][6] == run_item_prefix()[6]);
        assert(false);
    }
    if name_item_prefix().is_prefix_of(ls[0]) {
        assert(ls[0][6] == name_item_prefix()[6]);
        assert(ls[0][6] == run_item_prefix()[6]);
        assert(false);
    }
    assert(ls.skip(2) =~= Seq::<Seq<char>>::empty());
    let parsed = StepsView::Run {
        name: ls[1].skip(name_cont_prefix().len() as int),
        run: ls[0].skip(run_item_prefix().len() as int),
    };
    assert(parsed == StepsView::Run { name: a, run: b });
    assert(seq![parsed] + Seq::<StepsView>::empty() =~= seq![
        StepsView::Run { name: a, run: b },
    ]);
}

/// A lone `name` key, a lone `run` key, and a `uses` key followed by a
/// `name` continuation all fail to parse.
proof fn lemma_lone_keys_fail(u: Seq<char>, a: Seq<char>, b: Seq<char>)
    ensures
        parse_step_lines(seq![name_item_prefix() + a]) is None,
        parse_step_lines(seq![run_item_prefix() + b]) is None,
        parse_step_lines(seq![uses_item_prefix() + u, name_cont_prefix() + a]) is None,
{
    reveal_with_fuel(parse_step_lines, 3);
    lemma_prefix_value(name_item_prefix(), a);
    lemma_prefix_value(run_item_prefix(), b);
    lemma_prefix_value(uses_item_prefix(), u);
    let l_name = name_item_prefix() + a;
    if uses_item_prefix().is_prefix_of(l_name) {
        assert(l_name[6] == uses_item_prefix()[6]);
        assert(l_name[6] == name_item_prefix()[6]);
        assert(false);
    }
    let l_run = run_item_prefix() + b;
    if uses_item_prefix().is_prefix_of(l_run) {
        assert(l_run[6] == uses_item_prefix()[6]);
        assert(l_run[6] == run_item_prefix()[6]);
        assert(false);
    }
    if name_item_prefix().is_prefix_of(l_run) {
        assert(l_run[6] == name_item_prefix()[6]);
        assert(l_run[6] == run_item_prefix()[6]);
        assert(false);
    }
    let mixed = seq![uses_item_prefix() + u, name_cont_prefix() + a];
    let cont = name_cont_prefix() + a;
    assert(mixed.drop_first() =~= seq![cont]);
    if uses_item_prefix().is_prefix_of(cont) {
        assert(cont[4] == uses_item_prefix()[4]);
        assert(cont[4] == name_cont_prefix()[4]);
        assert(false);
    }
    if name_item_prefix().is_prefix_of(cont) {
        assert(cont[4] == name_item_prefix()[4]);
        assert(cont[4] == name_cont_prefix()[4]);
        assert(false);
    }
    if run_item_prefix().is_prefix_of(cont) {
        assert(cont[4] == run_item_prefix()[4]);
        assert(cont[4] == name_cont_prefix()[4]);
        assert(false);
    }
}

/// Key-normalization scope: in the normalized document of an encodable
/// workflow, the `name` line still carries the name value untouched — also
/// when that value is itself the text `on` — while the structural `on` key
/// stands in its bare rendering. No other line is rewritten at all.
pub proof fn lemma_normalize_scope(v: WorkflowView, t: Seq<char>, i: int)
    requires
        encodable(v),
    ensures
        split_lines(normalize_text(encode_text(v)))[0] == name_prefix() + v.name,
        split_lines(normalize_text(encode_text(v)))[1] == bare_on_prefix() + v.on,
        0 <= i < split_lines(t).len() && !quoted_on_prefix().is_prefix_of(split_lines(t)[i])
            ==> split_lines(normalize_text(t))[i] == split_lines(t)[i],
{
    lemma_normalize_encode(v);
    let ls = normalized_lines(v);
    lemma_steps_lines_shape(v.jobs.build.steps);
    assert forall|k: int| 0 <= k < ls.len() implies line_free(#[trigger] ls[k]) by {
        if k == 0 {
            assert forall|m: int| 0 <= m < ls[0].len() implies ls[0][m] != '\n' by {
                if m >= name_prefix().len() {
                    assert(ls[0][m] == v.name[m - name_prefix().len()]);
                }
            }
        } else if k == 1 {
            assert forall|m: int| 0 <= m < ls[1].len() implies ls[1][m] != '\n' by {
                if m >= bare_on_prefix().len() {
                    assert(ls[1][m] == v.on[m - bare_on_prefix().len()]);
                }
            }
        } else if k == 4 {
            assert forall|m: int| 0 <= m < ls[4].len() implies ls[4][m] != '\n' by {
                if m >= runs_on_prefix().len() {
                    assert(ls[4][m] == v.jobs.build.runs_on[m - runs_on_prefix().len()]);
                }
            }
        } else if k >= 6 {
            assert(ls[k] == steps_lines(v.jobs.build.steps)[k - 6]);
        }
    }
    lemma_split_join(ls);
    lemma_normalize_lines(t);
}

} // verus!
