//! The voting machine: name suggestions submitted through a web form are
//! printed on the paper strip, signed by their author.
use vstd::prelude::*;
use crate::form::{form_pairs, pairs_view, parse_form};
use crate::job::{OpModel, PrintOp, ops_view, push_lines, push_op, write_lines};
use crate::strings::{
    chars_of, lines, push_chars, push_str, split_lines, str_eq, take_chars, take_prefix, trim,
    trim_chars, is_whitespace, lemma_trim,
};

verus! {

/// Characters per line the TM-U220 fits in its default font.
pub const LINE_WIDTH: usize = 40;
/// Most bytes of a request body that are read.
pub const MAX_BODY: u64 = 16384;
/// Most characters of the suggestions field that are kept.
pub const MAX_SUGGESTION_CHARS: usize = 500;
/// Most characters of the author's name that are kept.
pub const MAX_NAME_CHARS: usize = 67;

/// What became of a submitted vote.
#[derive(PartialEq, Eq, Structural, Clone, Copy, Debug)]
pub enum Outcome {
    /// The suggestions were printed.
    Printed,
    /// There was no suggestion to print.
    Empty,
}

/// The value of the last pair with key `key` (empty where there is none).
pub open spec fn last_value(pairs: Seq<(Seq<char>, Seq<char>)>, key: Seq<char>) -> Seq<char>
    decreases pairs.len(),
{
    if pairs.len() == 0 {
        Seq::empty()
    } else if pairs.last().0 == key {
        pairs.last().1
    } else {
        last_value(pairs.drop_last(), key)
    }
}

/// The trimmed lines of `ls` that are not empty, in order.
pub open spec fn kept_lines(ls: Seq<Seq<char>>) -> Seq<Seq<char>>
    decreases ls.len(),
{
    if ls.len() == 0 {
        Seq::empty()
    } else {
        let rest = kept_lines(ls.drop_last());
        if trim(ls.last()).len() == 0 {
            rest
        } else {
            rest.push(trim(ls.last()))
        }
    }
}

/// The suggestions of a form body: the lines of its `suggestions` field, cut
/// to its first [`MAX_SUGGESTION_CHARS`] characters, trimmed, without empty
/// lines.
pub open spec fn ballot_lines(pairs: Seq<(Seq<char>, Seq<char>)>) -> Seq<Seq<char>> {
    kept_lines(
        lines(take_chars(last_value(pairs, "suggestions"@), MAX_SUGGESTION_CHARS as nat)),
    )
}

/// Who signs a vote: the trimmed `name` field cut to [`MAX_NAME_CHARS`]
/// characters, or `Anonymous` where that is empty.
pub open spec fn ballot_signer(pairs: Seq<(Seq<char>, Seq<char>)>) -> Seq<char> {
    let name = take_chars(trim(last_value(pairs, "name"@)), MAX_NAME_CHARS as nat);
    if name.len() == 0 {
        "Anonymous"@
    } else {
        name
    }
}

/// The operations that print a vote: upside down, the suggestions from the
/// last to the first (so that they read in order once the strip is turned
/// around), then the signature in bold, then eight line feeds.
pub open spec fn vote_ops(suggestions: Seq<Seq<char>>, signer: Seq<char>) -> Seq<OpModel> {
    seq![OpModel::Init, OpModel::UpsideDown(true)] + write_lines(suggestions.reverse()) + seq![
        OpModel::Bold(true),
        OpModel::WriteLine("Suggested by "@ + signer),
        OpModel::Bold(false),
        OpModel::UpsideDown(false),
        OpModel::Feeds(8),
        OpModel::Print,
    ]
}

/// The value of the last pair with key `key` (empty where there is none).
fn find_last(pairs: &Vec<(String, String)>, key: &str) -> (v: Vec<char>)
    ensures
        v@ == last_value(pairs_view(pairs@), key@),
{
    let mut found: Vec<char> = Vec::new();
    let mut i: usize = 0;
    while i < pairs.len()
        invariant
            i <= pairs.len(),
            found@ == last_value(pairs_view(pairs@).take(i as int), key@),
        decreases pairs.len() - i,
    {
        let ghost pv = pairs_view(pairs@);
        assert(pv.take(i + 1).drop_last() =~= pv.take(i as int));
        assert(pv.take(i + 1).last() == (pairs@[i as int].0@, pairs@[i as int].1@));
        if str_eq(pairs[i].0.as_str(), key) {
            found = chars_of(pairs[i].1.as_str());
        }
        i = i + 1;
    }
    assert(pairs_view(pairs@).take(pairs.len() as int) =~= pairs_view(pairs@));
    found
}

/// The trimmed lines of `ls` that are not empty (see [`kept_lines`]).
fn keep_lines(ls: &Vec<Vec<char>>) -> (out: Vec<Vec<char>>)
    ensures
        out@.map_values(|l: Vec<char>| l@) == kept_lines(ls@.map_values(|l: Vec<char>| l@)),
{
    let ghost lv = ls@.map_values(|l: Vec<char>| l@);
    let mut out: Vec<Vec<char>> = Vec::new();
    let mut i: usize = 0;
    while i < ls.len()
        invariant
            i <= ls.len(),
            lv == ls@.map_values(|l: Vec<char>| l@),
            out@.map_values(|l: Vec<char>| l@) == kept_lines(lv.take(i as int)),
        decreases ls.len() - i,
    {
        assert(lv.take(i + 1).drop_last() =~= lv.take(i as int));
        assert(lv.take(i + 1).last() == ls@[i as int]@);
        let t = trim_chars(ls[i].as_slice());
        if t.len() > 0 {
            let ghost before = out@.map_values(|l: Vec<char>| l@);
            let ghost tv = t@;
            out.push(t);
            assert(out@.map_values(|l: Vec<char>| l@) =~= before.push(tv));
        }
        i = i + 1;
    }
    assert(lv.take(ls.len() as int) =~= lv);
    out
}

/// The job for a submitted vote, from its form body: [`Outcome::Empty`] and
/// no operation where no suggestion is left, else [`Outcome::Printed`] and
/// the operations of [`vote_ops`].
pub fn vote_job(body: &str) -> (res: (Outcome, Vec<PrintOp>))
    ensures
        ({
            let pairs = form_pairs(vstd::utf8::encode_utf8(body@));
            if ballot_lines(pairs).len() == 0 {
                res.0 == Outcome::Empty && res.1@.len() == 0
            } else {
                res.0 == Outcome::Printed && ops_view(res.1@) == vote_ops(
                    ballot_lines(pairs),
                    ballot_signer(pairs),
                )
            }
        }),
{
    let pairs = parse_form(body);
    let ghost pv = form_pairs(vstd::utf8::encode_utf8(body@));
    let suggestions = find_last(&pairs, "suggestions");
    let name = find_last(&pairs, "name");

    let name = take_prefix(trim_chars(name.as_slice()).as_slice(), MAX_NAME_CHARS);
    let suggestions = take_prefix(suggestions.as_slice(), MAX_SUGGESTION_CHARS);
    let kept = keep_lines(&split_lines(suggestions.as_slice()));
    let ghost kv = kept@.map_values(|l: Vec<char>| l@);
    assert(kv == ballot_lines(pv));
    if kept.len() == 0 {
        return (Outcome::Empty, Vec::new());
    }

    // The printer flips each line individually, so the block is emitted back to
    // front to read correctly once the strip is turned around.
    let mut reversed: Vec<Vec<char>> = Vec::new();
    let mut i: usize = kept.len();
    while i > 0
        invariant
            i <= kept.len(),
            kv == kept@.map_values(|l: Vec<char>| l@),
            reversed@.map_values(|l: Vec<char>| l@) == kv.skip(i as int).reverse(),
        decreases i,
    {
        i = i - 1;
        let ghost before = reversed@.map_values(|l: Vec<char>| l@);
        let line = kept[i].clone();
        assert(line@ =~= kv[i as int]);
        reversed.push(line);
        assert(kv.skip(i as int).reverse() =~= kv.skip(i + 1).reverse().push(kv[i as int]));
        assert(reversed@.map_values(|l: Vec<char>| l@) =~= before.push(kv[i as int]));
    }
    assert(kv.skip(0) =~= kv);

    let mut signature = String::new();
    push_str(&mut signature, "Suggested by ");
    if name.len() == 0 {
        push_str(&mut signature, "Anonymous");
    } else {
        push_chars(&mut signature, name.as_slice());
    }
    assert(signature@ == "Suggested by "@ + ballot_signer(pv));

    let mut ops: Vec<PrintOp> = Vec::new();
    assert(ops_view(ops@) =~= Seq::<OpModel>::empty());
    push_op(&mut ops, PrintOp::Init);
    push_op(&mut ops, PrintOp::UpsideDown(true));
    push_lines(&mut ops, &reversed);
    push_op(&mut ops, PrintOp::Bold(true));
    push_op(&mut ops, PrintOp::WriteLine(signature));
    push_op(&mut ops, PrintOp::Bold(false));
    push_op(&mut ops, PrintOp::UpsideDown(false));
    push_op(&mut ops, PrintOp::Feeds(8));
    push_op(&mut ops, PrintOp::Print);
    assert(ops_view(ops@) =~= vote_ops(ballot_lines(pv), ballot_signer(pv)));
    (Outcome::Printed, ops)
}

proof fn lemma_kept_lines(ls: Seq<Seq<char>>)
    ensures
        forall|k: int|
            0 <= k < kept_lines(ls).len() ==> {
                let l = #[trigger] kept_lines(ls)[k];
                &&& l.len() > 0
                &&& !is_whitespace(l[0])
                &&& !is_whitespace(l.last())
            },
    decreases ls.len(),
{
    if ls.len() > 0 {
        lemma_kept_lines(ls.drop_last());
        lemma_trim(ls.last());
        let rest = kept_lines(ls.drop_last());
        if trim(ls.last()).len() > 0 {
            assert forall|k: int| 0 <= k < rest.len() implies #[trigger] rest.push(trim(ls.last()))[k]
                == rest[k] by {}
        }
    }
}

/// Every printed suggestion is a non-empty line without leading or trailing
/// whitespace.
pub proof fn law_ballot_lines(pairs: Seq<(Seq<char>, Seq<char>)>)
    ensures
        forall|k: int|
            0 <= k < ballot_lines(pairs).len() ==> {
                let l = #[trigger] ballot_lines(pairs)[k];
                &&& l.len() > 0
                &&& !is_whitespace(l[0])
                &&& !is_whitespace(l.last())
            },
{
    lemma_kept_lines(
        lines(take_chars(last_value(pairs, "suggestions"@), MAX_SUGGESTION_CHARS as nat)),
    );
}

/// Every vote is signed: by a name of 1 to [`MAX_NAME_CHARS`] characters
/// without surrounding whitespace, or by `Anonymous`.
pub proof fn law_ballot_signer(pairs: Seq<(Seq<char>, Seq<char>)>)
    ensures
        1 <= ballot_signer(pairs).len() <= MAX_NAME_CHARS,
        ballot_signer(pairs) == "Anonymous"@ || (ballot_signer(pairs).len() > 0 && !is_whitespace(
            ballot_signer(pairs)[0],
        )),
{
    reveal_strlit("Anonymous");
    lemma_trim(last_value(pairs, "name"@));
}

/// Keeping lines works line by line: what is kept of two runs of lines, one
/// after the other, is what is kept of each, one after the other.
pub proof fn law_kept_lines_concat(a: Seq<Seq<char>>, b: Seq<Seq<char>>)
    ensures
        kept_lines(a + b) == kept_lines(a) + kept_lines(b),
    decreases b.len(),
{
    if b.len() == 0 {
        assert(a + b =~= a);
        assert(kept_lines(a) + kept_lines(b) =~= kept_lines(a));
    } else {
        law_kept_lines_concat(a, b.drop_last());
        assert((a + b).drop_last() =~= a + b.drop_last());
        assert((a + b).last() == b.last());
        if trim(b.last()).len() == 0 {
        } else {
            assert(kept_lines(a) + kept_lines(b.drop_last()).push(trim(b.last())) =~= (kept_lines(a)
                + kept_lines(b.drop_last())).push(trim(b.last())));
        }
    }
}

/// Of a single line, its trimmed text is kept unless that is empty.
pub proof fn law_kept_line_single(x: Seq<char>)
    ensures
        kept_lines(seq![x]) == (if trim(x).len() == 0 {
            Seq::<Seq<char>>::empty()
        } else {
            seq![trim(x)]
        }),
{
    assert(seq![x].drop_last() =~= Seq::<Seq<char>>::empty());
    assert(kept_lines(seq![x].drop_last()) == Seq::<Seq<char>>::empty());
    assert(seq![x].last() == x);
    assert(Seq::<Seq<char>>::empty().push(trim(x)) =~= seq![trim(x)]);
}

/// The value of a field is that of the last pair with its key, or empty
/// where no pair has it.
pub proof fn law_last_value(pairs: Seq<(Seq<char>, Seq<char>)>, key: Seq<char>)
    ensures
        (exists|i: int| 0 <= i < pairs.len() && pairs[i].0 == key) ==> exists|i: int|
            0 <= i < pairs.len() && pairs[i].0 == key && last_value(pairs, key) == pairs[i].1 && forall|
                j: int,
            |
                i < j < pairs.len() ==> #[trigger] pairs[j].0 != key,
        (forall|i: int| 0 <= i < pairs.len() ==> #[trigger] pairs[i].0 != key) ==> last_value(pairs, key)
            == Seq::<char>::empty(),
    decreases pairs.len(),
{
    if pairs.len() > 0 {
        let init = pairs.drop_last();
        law_last_value(init, key);
        if pairs.last().0 == key {
            let i = pairs.len() - 1;
            assert(pairs[i].0 == key && last_value(pairs, key) == pairs[i].1);
        } else {
            if exists|i: int| 0 <= i < pairs.len() && pairs[i].0 == key {
                let i0 = choose|i: int| 0 <= i < pairs.len() && pairs[i].0 == key;
                assert(init[i0].0 == key);
                let i = choose|i: int|
                    0 <= i < init.len() && init[i].0 == key && last_value(init, key) == init[i].1
                        && forall|j: int| i < j < init.len() ==> #[trigger] init[j].0 != key;
                assert(pairs[i] == init[i]);
                assert forall|j: int| i < j < pairs.len() implies #[trigger] pairs[j].0 != key by {
                    if j < init.len() {
                        assert(pairs[j] == init[j]);
                    }
                }
            } else {
                assert forall|i: int| 0 <= i < init.len() implies #[trigger] init[i].0 != key by {
                    assert(init[i] == pairs[i]);
                }
            }
        }
    }
}

/// A vote job starts the printer upside down, writes the suggestions from
/// the last to the first, then the signature in bold, turns upside-down
/// printing off, feeds eight lines and prints.
pub proof fn law_vote_ops_order(suggestions: Seq<Seq<char>>, signer: Seq<char>)
    ensures
        ({
            let ops = vote_ops(suggestions, signer);
            let n = suggestions.len() as int;
            &&& ops.len() == n + 8
            &&& ops[0] == OpModel::Init
            &&& ops[1] == OpModel::UpsideDown(true)
            &&& forall|k: int| 0 <= k < n ==> #[trigger] ops[2 + k] == OpModel::WriteLine(suggestions[n - 1 - k])
            &&& ops[n + 2] == OpModel::Bold(true)
            &&& ops[n + 3] == OpModel::WriteLine("Suggested by "@ + signer)
            &&& ops[n + 4] == OpModel::Bold(false)
            &&& ops[n + 5] == OpModel::UpsideDown(false)
            &&& ops[n + 6] == OpModel::Feeds(8)
            &&& ops[n + 7] == OpModel::Print
        }),
{
    let ops = vote_ops(suggestions, signer);
    let n = suggestions.len() as int;
    let r = write_lines(suggestions.reverse());
    assert(r.len() == n);
    assert forall|k: int| 0 <= k < n implies #[trigger] ops[2 + k] == OpModel::WriteLine(suggestions[n - 1 - k]) by {
        assert(ops[2 + k] == r[k]);
        assert(suggestions.reverse()[k] == suggestions[n - 1 - k]);
    }
}

} // verus!
