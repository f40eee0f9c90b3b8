//! The lines of the script, across all the places it is given in.

use crate::error_handling::{ErrorView, SedError, SedResult};
use crate::quoting::{quote_path, shows_path};
use crate::text::{copy_range, decimal, push_decimal, same_text};
use vstd::prelude::*;

verus! {

/// What opening a script file gave.
#[derive(Debug)]
pub enum FileContent {
    /// The file could not be opened.
    Unopened(SedError),
    /// The file was opened and held these bytes. If there is an error, reading failed
    /// behind them.
    Opened(Vec<u8>, Option<SedError>),
}

/// A script that stands in a file, or in the standard input if the path is `-`.
#[derive(Debug)]
pub struct ScriptFile {
    /// The path of the file.
    pub path: String,
    /// What the file holds.
    pub content: FileContent,
}

/// The specification of a script: through a string or a file.
#[derive(Debug)]
pub enum ScriptValue {
    /// The bytes of the script. They need not be valid UTF-8.
    StringVal(Vec<u8>),
    /// A file that holds the script.
    PathVal(ScriptFile),
}

/// What an error says of the script file, whose path is shown as `quoted`, that could not be
/// opened.
pub open spec fn opening_text(quoted: Seq<char>) -> Seq<char> {
    "error opening script file "@ + quoted
}

/// What an error says of the script file at `path` that could not be opened. It shows the path
/// in the quotes of the platform's shell.
pub fn describe_opening(path: &[u8]) -> (text: String)
    ensures
        exists|quoted: Seq<char>|
            text@ == #[trigger] opening_text(quoted) && shows_path(quoted, path@),
{
    let quoted = quote_path(path);
    let mut text = String::from_str("error opening script file ");
    text.append(quoted.as_str());
    assert(text@ == opening_text(quoted@));
    text
}

/// A place that script lines come from.
pub enum Source {
    /// A place that cannot be read.
    Unreadable(ErrorView),
    /// A place with a name and content. If there is an error, reading failed behind the
    /// content.
    Readable { name: Seq<char>, content: Seq<u8>, failure: Option<ErrorView> },
}

/// One line of the script.
#[verifier::ext_equal]
pub struct ScriptLine {
    /// The name of the place it comes from.
    pub name: Seq<char>,
    /// Its number in that place, from 1.
    pub number: nat,
    /// Its bytes, without the line end.
    pub text: Seq<u8>,
}

/// The lines that are still to come.
#[verifier::ext_equal]
pub struct Rest {
    /// The lines, in order.
    pub lines: Seq<ScriptLine>,
    /// The failure that comes behind the last line, if the script does not simply end.
    pub failure: Option<ErrorView>,
    /// The name that is reported once there are no more lines.
    pub end_name: Seq<char>,
    /// The line number that is reported once there are no more lines.
    pub end_number: nat,
}

/// A script in the course of being read.
#[verifier::ext_equal]
pub struct Script {
    /// The name of the place that is being read.
    pub name: Seq<char>,
    /// The number of the line that was read last.
    pub number: nat,
    /// What is still to come.
    pub rest: Rest,
}

/// The name of the `n`th script that is given as an argument.
pub open spec fn argument_name(n: nat) -> Seq<char> {
    "<script argument "@ + decimal(n) + ">"@
}

/// The name of the script at `path`.
pub open spec fn path_name(path: Seq<char>) -> Seq<char> {
    if path == "-"@ {
        "<stdin>"@
    } else {
        path
    }
}

/// What an optional error holds.
pub open spec fn failure_of(failure: Option<SedError>) -> Option<ErrorView> {
    match failure {
        Some(e) => Some(e@),
        None => None,
    }
}

/// The place that `value` stands for as the script at position `i`.
pub open spec fn source_of(value: ScriptValue, i: int) -> Source {
    match value {
        ScriptValue::StringVal(bytes) => Source::Readable {
            name: argument_name((i + 1) as nat),
            content: bytes@,
            failure: None,
        },
        ScriptValue::PathVal(file) => match file.content {
            FileContent::Unopened(e) => Source::Unreadable(e@),
            FileContent::Opened(bytes, failure) => Source::Readable {
                name: path_name(file.path@),
                content: bytes@,
                failure: failure_of(failure),
            },
        },
    }
}

/// The places that `values` stand for.
pub open spec fn sources_of(values: Seq<ScriptValue>) -> Seq<Source> {
    Seq::new(values.len(), |i: int| source_of(values[i], i))
}

/// The first position at or after `from` that holds a line feed, or the end.
pub open spec fn line_end(content: Seq<u8>, from: int) -> int
    decreases content.len() - from,
{
    if 0 <= from < content.len() && content[from] != 10 {
        line_end(content, from + 1)
    } else {
        from
    }
}

/// The lines of `content` from `from` on. A last line without a line feed counts only if
/// `whole` holds.
pub open spec fn texts_from(content: Seq<u8>, from: int, whole: bool) -> Seq<Seq<u8>>
    decreases content.len() - from,
    when 0 <= from
{
    if from >= content.len() {
        Seq::empty()
    } else {
        let end = line_end(content, from);
        if from <= end < content.len() {
            seq![content.subrange(from, end)] + texts_from(content, end + 1, whole)
        } else if whole {
            seq![content.skip(from)]
        } else {
            Seq::empty()
        }
    }
}

/// The lines `texts` of the place `name`, when `number` lines came before them.
pub open spec fn numbered(name: Seq<char>, number: nat, texts: Seq<Seq<u8>>) -> Seq<ScriptLine> {
    Seq::new(texts.len(), |i: int| ScriptLine { name, number: (number + 1 + i) as nat, text: texts[i] })
}

/// What is still to come when the place at `i` has been read up to `from`, `number` lines
/// of it being read.
pub open spec fn rest_within(sources: Seq<Source>, i: int, from: int, number: nat) -> Rest
    decreases sources.len() - i, 0nat,
{
    if 0 <= i < sources.len() {
        match sources[i] {
            Source::Unreadable(_) => arbitrary(),
            Source::Readable { name, content, failure } => {
                let texts = texts_from(content, from, failure is None);
                let lines = numbered(name, number, texts);
                match failure {
                    Some(e) => Rest {
                        lines,
                        failure: Some(e),
                        end_name: name,
                        end_number: number + texts.len(),
                    },
                    None => {
                        let later = rest_from(sources, i + 1, name, number + texts.len());
                        Rest { lines: lines + later.lines, ..later }
                    },
                }
            },
        }
    } else {
        arbitrary()
    }
}

/// What is still to come from the place at `i` on, when the place `name` was read last and
/// `number` lines of it were read.
pub open spec fn rest_from(sources: Seq<Source>, i: int, name: Seq<char>, number: nat) -> Rest
    decreases sources.len() - i, 1nat,
{
    if 0 <= i < sources.len() {
        match sources[i] {
            Source::Unreadable(e) => Rest {
                lines: Seq::empty(),
                failure: Some(e),
                end_name: name,
                end_number: number,
            },
            Source::Readable { .. } => rest_within(sources, i, 0, 0),
        }
    } else {
        Rest { lines: Seq::empty(), failure: None, end_name: name, end_number: number }
    }
}

/// The script that `sources` make up, before anything is read.
pub open spec fn script_of(sources: Seq<Source>) -> Script {
    Script { name: Seq::empty(), number: 0, rest: rest_from(sources, 0, Seq::empty(), 0) }
}

/// The script after one more attempt to read a line.
pub open spec fn after_line(script: Script) -> Script {
    if script.rest.lines.len() > 0 {
        Script {
            name: script.rest.lines[0].name,
            number: script.rest.lines[0].number,
            rest: Rest { lines: script.rest.lines.drop_first(), ..script.rest },
        }
    } else {
        Script { name: script.rest.end_name, number: script.rest.end_number, ..script }
    }
}

/// What one more attempt to read a line gives.
pub open spec fn line_read(script: Script) -> Result<Option<Seq<u8>>, ErrorView> {
    if script.rest.lines.len() > 0 {
        Ok(Some(script.rest.lines[0].text))
    } else {
        match script.rest.failure {
            Some(e) => Err(e),
            None => Ok(None),
        }
    }
}

/// Once there are no more lines, trying again changes nothing.
pub proof fn law_end_is_final(script: Script)
    requires
        script.rest.lines.len() == 0,
    ensures
        line_read(after_line(script)) == line_read(script),
        after_line(after_line(script)) == after_line(script),
{
}

/// The script when its last place is left behind: under the name and at the line where it was,
/// with nothing to come.
pub open spec fn past_last(script: Script) -> Script {
    Script {
        rest: Rest {
            lines: Seq::empty(),
            failure: None,
            end_name: script.name,
            end_number: script.number,
        },
        ..script
    }
}

/// Once the last place is left behind, the script stays as it is, with the name and the line
/// number that it had, and every attempt to read a line finds none.
pub proof fn law_past_last_is_end(script: Script, n: nat)
    ensures
        past_last(script).name == script.name,
        past_last(script).number == script.number,
        after_reads(past_last(script), n) == past_last(script),
        line_read(after_reads(past_last(script), n)) == Ok::<Option<Seq<u8>>, ErrorView>(None),
    decreases n,
{
    if n > 0 {
        law_past_last_is_end(script, (n - 1) as nat);
    }
}

/// The script at the start of the place at `i`, which can be read.
pub open spec fn place_start(sources: Seq<Source>, i: int) -> Script {
    Script { name: sources[i]->name, number: 0, rest: rest_within(sources, i, 0, 0) }
}

/// The script after `n` attempts to read a line.
pub open spec fn after_reads(script: Script, n: nat) -> Script
    decreases n,
{
    if n == 0 {
        script
    } else {
        after_line(after_reads(script, (n - 1) as nat))
    }
}

/// Whether the place can be read to its end.
pub open spec fn is_whole(source: Source) -> bool {
    source matches Source::Readable { failure, .. } && failure is None
}

/// The lines of a place that can be read to its end.
pub open spec fn source_texts(source: Source) -> Seq<Seq<u8>> {
    texts_from(source->content, 0, true)
}

/// At the end of the last source, no more lines come, however often one asks. The script is then
/// at the last line of that source, under its name: there already when that line was read, if
/// it has one, and from the next attempt on in any case.
pub proof fn law_end_names_last_source(sources: Seq<Source>, n: nat)
    requires
        sources.len() > 0,
        forall|i: int| 0 <= i < sources.len() ==> is_whole(#[trigger] sources[i]),
    ensures
        ({
            let script = script_of(sources);
            let last = sources.last();
            let here = after_reads(script, n);
            &&& n < script.rest.lines.len() ==> line_read(here) == Ok::<
                Option<Seq<u8>>,
                ErrorView,
            >(Some(script.rest.lines[n as int].text))
            &&& n >= script.rest.lines.len() ==> line_read(here) == Ok::<
                Option<Seq<u8>>,
                ErrorView,
            >(None)
            &&& n > script.rest.lines.len() || (n == script.rest.lines.len() && source_texts(
                last,
            ).len() > 0) ==> {
                &&& here.name == last->name
                &&& here.number == source_texts(last).len()
            }
        }),
{
    let script = script_of(sources);
    lemma_rest_of_whole(sources, 0, Seq::empty(), 0);
    lemma_after_reads(script, n);
}

/// Where a script is after `n` attempts to read a line.
proof fn lemma_after_reads(script: Script, n: nat)
    ensures
        ({
            let lines = script.rest.lines;
            let here = after_reads(script, n);
            &&& here.rest == (Rest {
                lines: if n <= lines.len() {
                    lines.skip(n as int)
                } else {
                    Seq::empty()
                },
                ..script.rest
            })
            &&& 0 < n <= lines.len() ==> here.name == lines[n - 1].name && here.number
                == lines[n - 1].number
            &&& n > lines.len() ==> here.name == script.rest.end_name && here.number
                == script.rest.end_number
        }),
    decreases n,
{
    let lines = script.rest.lines;
    if n == 0 {
        assert(lines.skip(0) =~= lines);
    } else {
        lemma_after_reads(script, (n - 1) as nat);
        if n <= lines.len() {
            assert(lines.skip(n - 1).drop_first() =~= lines.skip(n as int));
        } else if n - 1 == lines.len() {
            assert(lines.skip(n - 1) =~= Seq::empty());
        }
    }
}

/// What is still to come of places that can be read to their end is named after the last one.
proof fn lemma_rest_of_whole(sources: Seq<Source>, i: int, name: Seq<char>, number: nat)
    requires
        0 <= i < sources.len(),
        forall|k: int| 0 <= k < sources.len() ==> is_whole(#[trigger] sources[k]),
    ensures
        ({
            let rest = rest_from(sources, i, name, number);
            let last = sources.last();
            &&& rest.failure is None
            &&& rest.end_name == last->name
            &&& rest.end_number == source_texts(last).len()
            &&& source_texts(last).len() > 0 ==> {
                &&& rest.lines.len() > 0
                &&& rest.lines.last().name == last->name
                &&& rest.lines.last().number == source_texts(last).len()
            }
        }),
    decreases sources.len() - i,
{
    assert(is_whole(sources[i]));
    let texts = source_texts(sources[i]);
    let lines = numbered(sources[i]->name, 0, texts);
    let later = rest_from(sources, i + 1, sources[i]->name, texts.len());
    assert(rest_from(sources, i, name, number) == rest_within(sources, i, 0, 0));
    if i + 1 < sources.len() {
        lemma_rest_of_whole(sources, i + 1, sources[i]->name, texts.len());
    } else {
        assert(lines + later.lines =~= lines);
    }
}

/// The lines, each with a line feed behind it.
pub open spec fn with_line_feeds(texts: Seq<Seq<u8>>) -> Seq<u8>
    decreases texts.len(),
{
    if texts.len() == 0 {
        Seq::empty()
    } else {
        texts[0].push(10) + with_line_feeds(texts.drop_first())
    }
}

/// The content of a script is that of its lines: each with a line feed behind it, they make it
/// up again, but for a line feed that the last one may lack. No line holds a line feed.
pub proof fn law_lines_make_up_script(content: Seq<u8>)
    ensures
        with_line_feeds(texts_from(content, 0, true)) == if content.len() > 0 && content.last() != 10 {
            content.push(10)
        } else {
            content
        },
        forall|k: int|
            0 <= k < texts_from(content, 0, true).len() ==> !(#[trigger] texts_from(
                content,
                0,
                true,
            )[k]).contains(10),
{
    lemma_lines_from(content, 0);
    assert(content.skip(0) =~= content);
}

/// The same from a position on.
proof fn lemma_lines_from(content: Seq<u8>, from: int)
    requires
        0 <= from <= content.len(),
    ensures
        ({
            let texts = texts_from(content, from, true);
            let rest = content.skip(from);
            &&& with_line_feeds(texts) == if rest.len() > 0 && rest.last() != 10 {
                rest.push(10)
            } else {
                rest
            }
            &&& forall|k: int| 0 <= k < texts.len() ==> !(#[trigger] texts[k]).contains(10)
        }),
    decreases content.len() - from,
{
    let rest = content.skip(from);
    let texts = texts_from(content, from, true);
    if from < content.len() {
        lemma_line_end(content, from);
        let end = line_end(content, from);
        if end < content.len() {
            lemma_lines_from(content, end + 1);
            let later = texts_from(content, end + 1, true);
            assert(texts[0] == content.subrange(from, end));
            assert(texts.drop_first() =~= later);
            let line = content.subrange(from, end).push(10);
            assert(rest =~= line + content.skip(end + 1));
            if content.skip(end + 1).len() > 0 {
                assert(rest.last() == content.skip(end + 1).last());
                assert(line + content.skip(end + 1).push(10) =~= rest.push(10));
            } else {
                assert(rest =~= line);
                assert(rest.last() == 10);
            }
            assert forall|k: int| 0 <= k < texts.len() implies !(#[trigger] texts[k]).contains(
                10,
            ) by {
                if k > 0 {
                    assert(texts[k] == later[k - 1]);
                }
            }
        } else {
            assert(texts =~= seq![rest]);
            assert(texts.drop_first() =~= Seq::empty());
            assert(with_line_feeds(texts.drop_first()) =~= Seq::empty());
            assert(rest.push(10) + Seq::<u8>::empty() =~= rest.push(10));
            assert(rest.last() == content[content.len() - 1]);
            assert(!rest.contains(10));
        }
    } else {
        assert(rest =~= Seq::empty());
    }
}

/// Up to the end of a line there is no line feed.
pub proof fn lemma_line_end(content: Seq<u8>, from: int)
    requires
        0 <= from <= content.len(),
    ensures
        from <= line_end(content, from) <= content.len(),
        line_end(content, from) < content.len() ==> content[line_end(content, from)] == 10,
        forall|i: int| from <= i < line_end(content, from) ==> #[trigger] content[i] != 10,
    decreases content.len() - from,
{
    if from < content.len() && content[from] != 10 {
        lemma_line_end(content, from + 1);
    }
}

/// The state of reading the script.
#[derive(Debug)]
enum State {
    /// Nothing has been read.
    NotStarted,
    /// The source at `index` is being read.
    Active {
        index: usize,
        offset: usize,
        input_name: String,
        line_number: usize,
    },
    /// Every source has been read.
    Done,
}

/// The provider of script lines across all specified scripts.
/// Scripts can be specified to sed as files or as strings.
#[derive(Debug)]
pub struct ScriptLineProvider {
    sources: Vec<ScriptValue>,
    state: State,
    /// The name of the source that was read before, if none is being read. A script that
    /// ends too early is reported under it.
    last_input_name: String,
    /// The line that was read last of that source.
    last_line_number: usize,
}

impl View for ScriptLineProvider {
    type V = Script;

    closed spec fn view(&self) -> Script {
        let sources = sources_of(self.sources@);
        match self.state {
            State::NotStarted => Script {
                name: self.last_input_name@,
                number: self.last_line_number as nat,
                rest: rest_from(
                    sources,
                    0,
                    self.last_input_name@,
                    self.last_line_number as nat,
                ),
            },
            State::Active { index, offset, input_name, line_number } => Script {
                name: input_name@,
                number: line_number as nat,
                rest: if index < sources.len() {
                    rest_within(sources, index as int, offset as int, line_number as nat)
                } else {
                    rest_from(sources, index as int, input_name@, line_number as nat)
                },
            },
            State::Done => Script {
                name: self.last_input_name@,
                number: self.last_line_number as nat,
                rest: Rest {
                    lines: Seq::empty(),
                    failure: None,
                    end_name: self.last_input_name@,
                    end_number: self.last_line_number as nat,
                },
            },
        }
    }
}

impl ScriptLineProvider {
    /// A source that is being read can be, bears its own name, and its line count never
    /// runs ahead of the bytes read.
    #[verifier::type_invariant]
    spec fn consistent(&self) -> bool {
        match self.state {
            State::Active { index, offset, input_name, line_number } => {
                &&& index <= self.sources@.len()
                &&& index < self.sources@.len() ==> match source_of(
                    self.sources@[index as int],
                    index as int,
                ) {
                    Source::Readable { name, content, .. } => {
                        &&& offset <= content.len() <= usize::MAX
                        &&& line_number <= offset
                        &&& input_name@ == name
                    },
                    Source::Unreadable(_) => false,
                }
            },
            _ => true,
        }
    }

    /// The provider of the given scripts.
    pub fn new(sources: Vec<ScriptValue>) -> (provider: Self)
        ensures
            provider@ == script_of(sources_of(sources@)),
    {
        Self {
            sources,
            state: State::NotStarted,
            last_input_name: String::new(),
            last_line_number: 0,
        }
    }

    /// A provider in the middle of a source of the given name, with no more lines to come.
    pub fn with_active_state(input_name: &str, line_number: usize) -> (provider: Self)
        ensures
            provider@ == (Script {
                name: input_name@,
                number: line_number as nat,
                rest: Rest {
                    lines: Seq::empty(),
                    failure: None,
                    end_name: input_name@,
                    end_number: line_number as nat,
                },
            }),
    {
        Self {
            sources: Vec::new(),
            state: State::Active {
                index: 0,
                offset: 0,
                input_name: String::from_str(input_name),
                line_number,
            },
            last_input_name: String::new(),
            last_line_number: 0,
        }
    }

    /// The number of the line that was read last, in the source that is being read or
    /// that was read last.
    pub fn get_line_number(&self) -> (number: usize)
        ensures
            number == self@.number,
    {
        match &self.state {
            State::Active { line_number, .. } => *line_number,
            _ => self.last_line_number,
        }
    }

    /// The name of the source that is being read or that was read last.
    pub fn get_input_name(&self) -> (name: &str)
        ensures
            name@ == self@.name,
    {
        match &self.state {
            State::Active { input_name, .. } => input_name.as_str(),
            _ => self.last_input_name.as_str(),
        }
    }

    /// The places that the scripts stand for.
    pub closed spec fn sources(&self) -> Seq<Source> {
        sources_of(self.sources@)
    }

    /// How many sources are still to be left behind.
    pub closed spec fn sources_ahead(&self) -> int {
        match self.state {
            State::NotStarted => self.sources@.len() + 2int,
            State::Active { index, .. } => self.sources@.len() - index + 1,
            State::Done => 0,
        }
    }

    /// The next script line across all scripts, without its line end. There is none once
    /// every source has been read.
    pub fn next_line(&mut self) -> (result: SedResult<Option<Vec<u8>>>)
        ensures
            match result {
                Ok(Some(line)) => line_read(old(self)@) == Ok::<Option<Seq<u8>>, ErrorView>(
                    Some(line@),
                ),
                Ok(None) => line_read(old(self)@) == Ok::<Option<Seq<u8>>, ErrorView>(None),
                Err(e) => line_read(old(self)@) == Err::<Option<Seq<u8>>, ErrorView>(e@),
            },
            final(self)@ == after_line(old(self)@),
    {
        let ghost start = self@;
        loop
            invariant
                self@.rest == start.rest,
                start == old(self)@,
            decreases self.sources_ahead(),
        {
            proof {
                use_type_invariant(&*self);
            }
            let next: usize = match &self.state {
                State::NotStarted => 0,
                State::Done => {
                    return Ok(None);
                },
                State::Active { index, offset, input_name, line_number } => {
                    let index: usize = *index;
                    let from: usize = *offset;
                    if index < self.sources.len() {
                        let ghost sources = sources_of(self.sources@);
                        assert(sources[index as int] == source_of(
                            self.sources@[index as int],
                            index as int,
                        ));
                        let number: usize = *line_number;
                        let failure = read_failure(&self.sources[index]);
                        let content = match content_of(&self.sources[index]) {
                            Some(content) => content,
                            None => {
                                return Ok(None);
                            },
                        };
                        if from < content.len() {
                            let end = find_line_end(content, from);
                            if end < content.len() || failure.is_none() {
                                proof {
                                    lemma_rest_step(
                                        sources,
                                        index as int,
                                        from as int,
                                        number as nat,
                                    );
                                }
                                let line = copy_range(content, from, end);
                                let offset: usize = if end < content.len() {
                                    end + 1
                                } else {
                                    end
                                };
                                let name = input_name.clone();
                                self.state = State::Active {
                                    index,
                                    offset,
                                    input_name: name,
                                    line_number: number + 1,
                                };
                                return Ok(Some(line));
                            }
                        }
                        if let Some(e) = failure {
                            return Err(e);
                        }
                        index + 1
                    } else {
                        index
                    }
                },
            };
            match self.advance_source(next) {
                Ok(_) => (),
                Err(e) => {
                    return Err(e);
                },
            }
        }
    }

    /// Moves to the source at `next`, or past the last one, which changes neither the name nor
    /// the line number. A source that cannot be opened is an error, and then nothing changes.
    pub(crate) fn advance_source(&mut self, next: usize) -> (result: SedResult<()>)
        ensures
            next >= old(self).sources().len() ==> {
                &&& result is Ok
                &&& final(self)@ == past_last(old(self)@)
                &&& final(self).sources_ahead() == 0
            },
            next < old(self).sources().len() ==> match result {
                Ok(_) => {
                    &&& old(self).sources()[next as int] is Readable
                    &&& final(self)@ == place_start(old(self).sources(), next as int)
                    &&& final(self).sources_ahead() == old(self).sources().len() - next + 1
                },
                Err(e) => {
                    &&& old(self).sources()[next as int] == Source::Unreadable(e@)
                    &&& final(self)@ == old(self)@
                },
            },
            final(self).sources() == old(self).sources(),
    {
        proof {
            use_type_invariant(&*self);
        }
        let ghost sources = sources_of(self.sources@);
        if next >= self.sources.len() {
            let name = String::from_str(self.get_input_name());
            let number: usize = self.get_line_number();
            self.last_input_name = name;
            self.last_line_number = number;
            self.state = State::Done;
            return Ok(());
        }
        assert(sources[next as int] == source_of(self.sources@[next as int], next as int));
        match &self.sources[next] {
            ScriptValue::StringVal(bytes) => {
                assert(bytes.len() <= usize::MAX);
                let mut name = String::from_str("<script argument ");
                push_decimal(&mut name, next + 1);
                name.append(">");
                self.state = State::Active {
                    index: next,
                    offset: 0,
                    input_name: name,
                    line_number: 0,
                };
            },
            ScriptValue::PathVal(file) => {
                match &file.content {
                    FileContent::Unopened(e) => {
                        return Err(e.duplicate());
                    },
                    FileContent::Opened(bytes, _) => {
                        assert(bytes.len() <= usize::MAX);
                        let name = if same_text(file.path.as_str(), "-") {
                            String::from_str("<stdin>")
                        } else {
                            file.path.clone()
                        };
                        self.state = State::Active {
                            index: next,
                            offset: 0,
                            input_name: name,
                            line_number: 0,
                        };
                    },
                }
            },
        }
        Ok(())
    }
}

/// The bytes of a script, if it can be read.
fn content_of(value: &ScriptValue) -> (content: Option<&Vec<u8>>)
    ensures
        forall|i: int|
            match #[trigger] source_of(*value, i) {
                Source::Readable { content: c, .. } => content matches Some(b) && b@ == c,
                Source::Unreadable(_) => content is None,
            },
{
    match value {
        ScriptValue::StringVal(bytes) => Some(bytes),
        ScriptValue::PathVal(file) => match &file.content {
            FileContent::Opened(bytes, _) => Some(bytes),
            FileContent::Unopened(_) => None,
        },
    }
}

/// The failure behind the bytes of a script, if there is one.
fn read_failure(value: &ScriptValue) -> (failure: Option<SedError>)
    ensures
        forall|i: int|
            match #[trigger] source_of(*value, i) {
                Source::Readable { failure: f, .. } => failure_of(failure) == f,
                Source::Unreadable(_) => failure is None,
            },
{
    match value {
        ScriptValue::StringVal(_) => None,
        ScriptValue::PathVal(file) => match &file.content {
            FileContent::Opened(_, Some(e)) => Some(e.duplicate()),
            _ => None,
        },
    }
}

/// The position of the first line feed in `content` at or after `from`, or the end.
pub fn find_line_end(content: &Vec<u8>, from: usize) -> (end: usize)
    requires
        from <= content.len(),
    ensures
        end == line_end(content@, from as int),
        from <= end <= content.len(),
        end < content.len() ==> content[end as int] == 10,
{
    let mut end: usize = from;
    while end < content.len() && content[end] != 10
        invariant
            from <= end <= content.len(),
            line_end(content@, end as int) == line_end(content@, from as int),
        decreases content.len() - end,
    {
        end += 1;
    }
    end
}

/// Taking one line off the lines of a place leaves the lines behind it.
proof fn lemma_numbered_first(name: Seq<char>, number: nat, texts: Seq<Seq<u8>>)
    requires
        texts.len() > 0,
    ensures
        numbered(name, number, texts)[0] == (ScriptLine { name, number: number + 1, text: texts[0] }),
        numbered(name, number, texts).drop_first() =~= numbered(
            name,
            number + 1,
            texts.drop_first(),
        ),
{
}

/// The lines to come when the line from `from` to `end` has been read are those before
/// without the first.
proof fn lemma_rest_step(sources: Seq<Source>, i: int, from: int, number: nat)
    requires
        0 <= i < sources.len(),
        sources[i] is Readable,
        0 <= from < sources[i]->content.len(),
        from <= line_end(sources[i]->content, from) <= sources[i]->content.len(),
        line_end(sources[i]->content, from) < sources[i]->content.len()
            || sources[i]->failure is None,
    ensures
        ({
            let content = sources[i]->content;
            let end = line_end(content, from);
            let next = if end < content.len() {
                end + 1
            } else {
                end
            };
            let before = rest_within(sources, i, from, number);
            let after = rest_within(sources, i, next, number + 1);
            &&& before.lines.len() > 0
            &&& before.lines[0] == (ScriptLine {
                name: sources[i]->name,
                number: number + 1,
                text: content.subrange(from, end),
            })
            &&& after == (Rest { lines: before.lines.drop_first(), ..before })
        }),
{
    let content = sources[i]->content;
    let name = sources[i]->name;
    let whole = sources[i]->failure is None;
    let end = line_end(content, from);
    let next = if end < content.len() {
        end + 1
    } else {
        end
    };
    let texts = texts_from(content, from, whole);
    let later = texts_from(content, next, whole);
    assert(content.subrange(from, content.len() as int) =~= content.skip(from));
    assert(texts[0] == content.subrange(from, end));
    assert(texts.drop_first() =~= later);
    lemma_numbered_first(name, number, texts);
    if sources[i]->failure is None {
        let rest = rest_from(sources, i + 1, name, number + texts.len());
        assert(number + 1 + later.len() == number + texts.len());
        assert((numbered(name, number, texts) + rest.lines).drop_first() =~= numbered(
            name,
            number + 1,
            later,
        ) + rest.lines);
    }
}

} // verus!
