//! The lines of a script, and the places that they come from.

use crate::error_handling::ErrorView;
use crate::script_line_provider::{
    FileContent, Script, ScriptLine, ScriptValue, Source, after_reads, line_end, line_read,
    numbered, rest_from, rest_within, script_of, source_of, texts_from, with_line_feeds,
};
use crate::text::decimal;
use vstd::prelude::*;

verus! {

/// The lines of places that can be read: those of one place behind those of the one before it,
/// under the name of the place and numbered from 1.
pub open spec fn lines_of(sources: Seq<Source>) -> Seq<ScriptLine>
    decreases sources.len(),
{
    if sources.len() == 0 {
        Seq::empty()
    } else {
        match sources.last() {
            Source::Readable { name, content, .. } => {
                let texts = texts_from(content, 0, true);
                lines_of(sources.drop_last()) + Seq::new(
                    texts.len(),
                    |k: int| ScriptLine { name, number: (k + 1) as nat, text: texts[k] },
                )
            },
            Source::Unreadable(_) => lines_of(sources.drop_last()),
        }
    }
}

/// Whether all places before the one at `i` can be read to their ends.
pub open spec fn whole_before(sources: Seq<Source>, i: int) -> bool {
    forall|j: int|
        0 <= j < i ==> (#[trigger] sources[j] matches Source::Readable { failure, .. } && failure
            is None)
}

/// The lines behind a place come behind those before it.
proof fn lemma_lines_from(
    sources: Seq<Source>,
    i: int,
    end: int,
    name: Seq<char>,
    number: nat,
)
    requires
        0 <= i <= end <= sources.len(),
        whole_before(sources, end),
    ensures
        exists|end_name: Seq<char>, end_number: nat|
            {
                let later = #[trigger] rest_from(sources, end, end_name, end_number);
                let rest = rest_from(sources, i, name, number);
                &&& lines_of(sources.take(i)) + rest.lines == lines_of(sources.take(end))
                    + later.lines
                &&& rest.failure == later.failure
            },
    decreases end - i,
{
    let rest = rest_from(sources, i, name, number);
    if i == end {
        assert(rest == rest_from(sources, end, name, number));
    } else {
        assert(sources[i] is Readable);
        let place = sources[i]->name;
        let texts = texts_from(sources[i]->content, 0, true);
        let next = rest_from(sources, i + 1, place, texts.len());
        lemma_lines_from(sources, i + 1, end, place, texts.len());
        let shorter = sources.take(i + 1);
        assert(shorter.drop_last() =~= sources.take(i));
        assert(shorter.last() == sources[i]);
        assert(lines_of(shorter) =~= lines_of(sources.take(i)) + numbered(place, 0, texts));
        assert(rest.lines =~= numbered(place, 0, texts) + next.lines);
        assert(lines_of(sources.take(i)) + rest.lines =~= lines_of(shorter) + next.lines);
    }
}

/// A script whose places can all be read has the lines of its places, in order, and ends behind
/// them.
pub proof fn law_script_is_its_lines(sources: Seq<Source>)
    requires
        whole_before(sources, sources.len() as int),
    ensures
        script_of(sources).rest.lines == lines_of(sources),
        script_of(sources).rest.failure is None,
        script_of(sources).number == 0,
{
    lemma_lines_from(sources, 0, sources.len() as int, Seq::empty(), 0);
    let (end_name, end_number) = choose|end_name: Seq<char>, end_number: nat|
        {
            let later = #[trigger] rest_from(sources, sources.len() as int, end_name, end_number);
            let rest = rest_from(sources, 0, Seq::empty(), 0);
            &&& lines_of(sources.take(0)) + rest.lines == lines_of(
                sources.take(sources.len() as int),
            ) + later.lines
            &&& rest.failure == later.failure
        };
    assert(sources.take(sources.len() as int) =~= sources);
    assert(sources.take(0).len() == 0);
    let rest = rest_from(sources, 0, Seq::empty(), 0);
    assert(lines_of(sources.take(0)) + rest.lines =~= rest.lines);
    let later = rest_from(sources, sources.len() as int, end_name, end_number);
    assert(lines_of(sources) + later.lines =~= lines_of(sources));
}

/// A script with a place that cannot be read has the lines of the places before it, and fails
/// behind them.
pub proof fn law_unreadable_place_fails(sources: Seq<Source>, i: int)
    requires
        0 <= i < sources.len(),
        whole_before(sources, i),
        sources[i] is Unreadable,
    ensures
        script_of(sources).rest.lines == lines_of(sources.take(i)),
        script_of(sources).rest.failure == Some(sources[i]->Unreadable_0),
{
    lemma_lines_from(sources, 0, i, Seq::empty(), 0);
    let (end_name, end_number) = choose|end_name: Seq<char>, end_number: nat|
        {
            let later = #[trigger] rest_from(sources, i, end_name, end_number);
            let rest = rest_from(sources, 0, Seq::empty(), 0);
            &&& lines_of(sources.take(0)) + rest.lines == lines_of(sources.take(i)) + later.lines
            &&& rest.failure == later.failure
        };
    assert(sources.take(0).len() == 0);
    let rest = rest_from(sources, 0, Seq::empty(), 0);
    assert(lines_of(sources.take(0)) + rest.lines =~= rest.lines);
    let later = rest_from(sources, i, end_name, end_number);
    assert(lines_of(sources.take(i)) + later.lines =~= lines_of(sources.take(i)));
}

/// A script with a place that fails while it is read has the lines of the places before it and
/// the complete lines of that place, and fails behind them.
pub proof fn law_failing_place_fails(sources: Seq<Source>, i: int)
    requires
        0 <= i < sources.len(),
        whole_before(sources, i),
        sources[i] matches Source::Readable { failure, .. } && failure is Some,
    ensures
        ({
            let texts = texts_from(sources[i]->content, 0, false);
            script_of(sources).rest.lines == lines_of(sources.take(i)) + Seq::new(
                texts.len(),
                |k: int|
                    ScriptLine { name: sources[i]->name, number: (k + 1) as nat, text: texts[k] },
            )
        }),
        script_of(sources).rest.failure == sources[i]->failure,
{
    lemma_lines_from(sources, 0, i, Seq::empty(), 0);
    let (end_name, end_number) = choose|end_name: Seq<char>, end_number: nat|
        {
            let later = #[trigger] rest_from(sources, i, end_name, end_number);
            let rest = rest_from(sources, 0, Seq::empty(), 0);
            &&& lines_of(sources.take(0)) + rest.lines == lines_of(sources.take(i)) + later.lines
            &&& rest.failure == later.failure
        };
    assert(sources.take(0).len() == 0);
    let rest = rest_from(sources, 0, Seq::empty(), 0);
    assert(lines_of(sources.take(0)) + rest.lines =~= rest.lines);
    let later = rest_from(sources, i, end_name, end_number);
    let texts = texts_from(sources[i]->content, 0, false);
    assert(later == rest_within(sources, i, 0, 0));
    assert(later.lines =~= Seq::new(
        texts.len(),
        |k: int| ScriptLine { name: sources[i]->name, number: (k + 1) as nat, text: texts[k] },
    ));
}

/// The complete lines make up the content up to its last line feed.
pub proof fn law_complete_lines(content: Seq<u8>)
    ensures
        ({
            let part = with_line_feeds(texts_from(content, 0, false));
            &&& part.len() <= content.len()
            &&& part == content.take(part.len() as int)
            &&& forall|j: int| part.len() <= j < content.len() ==> #[trigger] content[j] != 10
        }),
        forall|k: int|
            0 <= k < texts_from(content, 0, false).len() ==> !(#[trigger] texts_from(
                content,
                0,
                false,
            )[k]).contains(10),
{
    lemma_complete_from(content, 0);
    let part = with_line_feeds(texts_from(content, 0, false));
    assert(content.subrange(0, part.len() as int) =~= content.take(part.len() as int));
}

/// Where a line ends.
proof fn lemma_line_end_found(content: Seq<u8>, from: int)
    requires
        0 <= from <= content.len(),
    ensures
        ({
            let end = line_end(content, from);
            &&& from <= end <= content.len()
            &&& forall|j: int| from <= j < end ==> #[trigger] content[j] != 10
            &&& end < content.len() ==> content[end] == 10
        }),
    decreases content.len() - from,
{
    if from < content.len() && content[from] != 10 {
        lemma_line_end_found(content, from + 1);
    }
}

/// The same from a position on.
proof fn lemma_complete_from(content: Seq<u8>, from: int)
    requires
        0 <= from <= content.len(),
    ensures
        ({
            let part = with_line_feeds(texts_from(content, from, false));
            &&& from + part.len() <= content.len()
            &&& part == content.subrange(from, from + part.len())
            &&& forall|j: int| from + part.len() <= j < content.len() ==> #[trigger] content[j] != 10
        }),
        forall|k: int|
            0 <= k < texts_from(content, from, false).len() ==> !(#[trigger] texts_from(
                content,
                from,
                false,
            )[k]).contains(10),
    decreases content.len() - from,
{
    lemma_line_end_found(content, from);
    let end = line_end(content, from);
    let texts = texts_from(content, from, false);
    let part = with_line_feeds(texts);
    if from < content.len() && end < content.len() {
        lemma_complete_from(content, end + 1);
        let later = texts_from(content, end + 1, false);
        let line = content.subrange(from, end);
        assert(texts =~= seq![line] + later);
        assert(texts.drop_first() =~= later);
        let rest = with_line_feeds(later);
        assert(part == line.push(10) + rest);
        assert(part =~= content.subrange(from, from + part.len())) by {
            assert forall|j: int| 0 <= j < part.len() implies #[trigger] part[j]
                == content.subrange(from, from + part.len())[j] by {
                if j > line.len() {
                    assert(rest[j - line.len() - 1] == content.subrange(
                        end + 1,
                        end + 1 + rest.len(),
                    )[j - line.len() - 1]);
                }
            }
        }
        assert forall|k: int| 0 <= k < texts.len() implies !(#[trigger] texts[k]).contains(10) by {
            if k == 0 {
                assert forall|j: int| 0 <= j < line.len() implies line[j] != 10 by {
                    assert(content[from + j] != 10);
                }
            } else {
                assert(texts[k] == later[k - 1]);
            }
        }
    } else {
        assert(texts =~= Seq::empty());
        assert(part =~= content.subrange(from, from));
    }
}

/// Reading gives the lines of the script one by one, each under its name and number; behind the
/// last one it gives the failure, or nothing.
pub proof fn law_lines_are_read_in_order(script: Script, n: nat)
    ensures
        n < script.rest.lines.len() ==> {
            let line = script.rest.lines[n as int];
            let after = after_reads(script, n + 1);
            &&& line_read(after_reads(script, n)) == Ok::<Option<Seq<u8>>, ErrorView>(
                Some(line.text),
            )
            &&& after.name == line.name
            &&& after.number == line.number
        },
        n >= script.rest.lines.len() ==> line_read(after_reads(script, n))
            == match script.rest.failure {
            Some(e) => Err::<Option<Seq<u8>>, ErrorView>(e),
            None => Ok(None),
        },
        after_reads(script, n).rest.failure == script.rest.failure,
        after_reads(script, n).rest.lines == if n < script.rest.lines.len() {
            script.rest.lines.skip(n as int)
        } else {
            Seq::empty()
        },
    decreases n,
{
    if n > 0 {
        law_lines_are_read_in_order(script, (n - 1) as nat);
        let before = after_reads(script, (n - 1) as nat);
        if n - 1 < script.rest.lines.len() {
            assert(script.rest.lines.skip(n - 1).drop_first() =~= script.rest.lines.skip(n as int));
            if n == script.rest.lines.len() {
                assert(script.rest.lines.skip(n as int) =~= Seq::empty());
            }
        }
    } else {
        assert(script.rest.lines.skip(0) =~= script.rest.lines);
    }
}

/// A script that is given as an argument is named by its position, from 1 on, and holds the
/// bytes of the argument. A script file has its path for a name, but standard input has a name
/// of its own.
pub proof fn law_names_of_scripts(value: ScriptValue, i: int)
    requires
        0 <= i,
    ensures
        match value {
            ScriptValue::StringVal(bytes) => source_of(value, i) == (Source::Readable {
                name: "<script argument "@ + decimal((i + 1) as nat) + ">"@,
                content: bytes@,
                failure: None,
            }),
            ScriptValue::PathVal(file) => match file.content {
                FileContent::Unopened(e) => source_of(value, i) == Source::Unreadable(e@),
                FileContent::Opened(bytes, failure) => source_of(
                    value,
                    i,
                ) matches Source::Readable { name, content, failure: failed } && {
                    &&& name == if file.path@ == "-"@ {
                        "<stdin>"@
                    } else {
                        file.path@
                    }
                    &&& content == bytes@
                    &&& failed is Some <==> failure is Some
                    &&& failure matches Some(e) ==> failed == Some(e@)
                },
            },
        },
{
}

} // verus!
