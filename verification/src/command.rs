//! Compiled commands and the state that compiling and running them share.

use crate::error_handling::{LocationView, ScriptLocation, column_of, unknown_location};
use crate::fast_regex::{Regex, RegexView};
use crate::named_reader::{NamedReader, ReaderView};
use crate::named_writer::{NamedWriter, WriterView, standard_output_path};
use crate::script_char_provider::ScriptCharProvider;
use crate::script_line_provider::ScriptLineProvider;
use crate::text::{chars_of, copy_range};
use vstd::hash_map::StringHashMap;
use vstd::prelude::*;

verus! {

/// What an optional value holds.
pub open spec fn opt_view<T: View>(value: Option<T>) -> Option<T::V> {
    match value {
        Some(v) => Some(v@),
        None => None,
    }
}

/// The unit that text is handled by.
#[derive(Debug, Clone, Copy, PartialEq, Eq, Structural)]
pub enum CharacterMode {
    /// Single bytes.
    Byte,
    /// Characters in UTF-8.
    Utf8,
}

/// The syntax of regular expressions.
#[derive(Debug, Clone, Copy, PartialEq, Eq, Structural)]
pub enum RegexMode {
    /// POSIX basic regular expressions.
    Basic,
    /// POSIX extended regular expressions.
    Extended,
}

/// What an [`Address`] holds.
#[verifier::ext_equal]
pub enum AddressView {
    Re(Option<RegexView>),
    Line(usize),
    RelLine(usize),
    Last,
    StepMatch(usize),
    StepEnd(usize),
}

/// An address that selects input lines.
#[derive(Debug)]
pub enum Address {
    /// The lines that the expression matches; none stands for the last one that was used.
    Re(Option<Regex>),
    /// The line of that number.
    Line(usize),
    /// So many lines behind the first address.
    RelLine(usize),
    /// The last line.
    Last,
    /// Every so many lines from the first address on.
    StepMatch(usize),
    /// Up to the next line whose number is a multiple of this.
    StepEnd(usize),
}

impl View for Address {
    type V = AddressView;

    open spec fn view(&self) -> AddressView {
        match *self {
            Address::Re(re) => AddressView::Re(opt_view(re)),
            Address::Line(n) => AddressView::Line(n),
            Address::RelLine(n) => AddressView::RelLine(n),
            Address::Last => AddressView::Last,
            Address::StepMatch(n) => AddressView::StepMatch(n),
            Address::StepEnd(n) => AddressView::StepEnd(n),
        }
    }
}

/// A change of case in a replacement.
#[derive(Debug, Clone, Copy, PartialEq, Eq, Structural)]
pub enum CaseConversion {
    /// All that follows to upper case.
    Upper,
    /// All that follows to lower case.
    Lower,
    /// The next character to upper case.
    UpperNext,
    /// The next character to lower case.
    LowerNext,
    /// No more conversion.
    End,
}

/// What a [`ReplacementPart`] holds.
#[verifier::ext_equal]
pub enum PartView {
    Literal(Seq<u8>),
    WholeMatch,
    Group(u32),
    Case(CaseConversion),
}

/// One part of a replacement.
#[derive(Debug)]
pub enum ReplacementPart {
    /// These bytes.
    Literal(Vec<u8>),
    /// All that the expression matched.
    WholeMatch,
    /// What the group of that number matched.
    Group(u32),
    /// A change of case.
    Case(CaseConversion),
}

impl View for ReplacementPart {
    type V = PartView;

    open spec fn view(&self) -> PartView {
        match *self {
            ReplacementPart::Literal(bytes) => PartView::Literal(bytes@),
            ReplacementPart::WholeMatch => PartView::WholeMatch,
            ReplacementPart::Group(n) => PartView::Group(n),
            ReplacementPart::Case(case) => PartView::Case(case),
        }
    }
}

/// What the replacement parts hold.
pub open spec fn parts_view(parts: Seq<ReplacementPart>) -> Seq<PartView> {
    parts.map_values(|p: ReplacementPart| p@)
}

/// The group that a part refers to, or 0.
pub open spec fn group_of(part: PartView) -> u32 {
    match part {
        PartView::Group(n) => n,
        _ => 0,
    }
}

/// The largest group number that the parts refer to, or 0.
pub open spec fn max_group(parts: Seq<PartView>) -> u32
    decreases parts.len(),
{
    if parts.len() == 0 {
        0
    } else {
        let before = max_group(parts.drop_last());
        let last = group_of(parts.last());
        if last > before {
            last
        } else {
            before
        }
    }
}

/// What a substitution puts in place of a match.
#[derive(Debug)]
pub struct ReplacementTemplate {
    /// The parts, in order.
    pub parts: Vec<ReplacementPart>,
    /// The largest group number that the parts refer to, or 0.
    pub max_group_number: usize,
}

/// What a [`ReplacementTemplate`] holds.
#[verifier::ext_equal]
pub struct TemplateView {
    /// The parts, in order.
    pub parts: Seq<PartView>,
    /// The largest group number that the parts refer to, or 0.
    pub max_group_number: nat,
}

impl View for ReplacementTemplate {
    type V = TemplateView;

    open spec fn view(&self) -> TemplateView {
        TemplateView {
            parts: parts_view(self.parts@),
            max_group_number: self.max_group_number as nat,
        }
    }
}

/// The template that is made of `parts`.
pub open spec fn template_of(parts: Seq<PartView>) -> TemplateView {
    TemplateView { parts, max_group_number: max_group(parts) as nat }
}

impl ReplacementTemplate {
    /// The template that is made of `parts`.
    pub fn new(parts: Vec<ReplacementPart>) -> (template: Self)
        ensures
            template@ == template_of(parts_view(parts@)),
    {
        let mut max: u32 = 0;
        let mut i: usize = 0;
        let ghost views = parts_view(parts@);
        while i < parts.len()
            invariant
                i <= parts.len(),
                views == parts_view(parts@),
                max == max_group(views.take(i as int)),
            decreases parts.len() - i,
        {
            assert(views.take(i + 1).drop_last() =~= views.take(i as int));
            assert(views[i as int] == parts@[i as int]@);
            if let ReplacementPart::Group(n) = &parts[i] {
                if *n > max {
                    max = *n;
                }
            }
            i += 1;
        }
        assert(views.take(i as int) =~= views);
        ReplacementTemplate { parts, max_group_number: max as usize }
    }
}

impl Default for ReplacementTemplate {
    fn default() -> (template: Self)
        ensures
            template@ == template_of(Seq::empty()),
    {
        let template = ReplacementTemplate { parts: Vec::new(), max_group_number: 0 };
        assert(template@.parts =~= Seq::<PartView>::empty());
        template
    }
}

/// What a [`Substitution`] holds.
#[verifier::ext_equal]
pub struct SubstitutionView {
    pub occurrence: usize,
    pub global: bool,
    pub print_flag: bool,
    pub p_before_e: bool,
    pub ignore_case: bool,
    pub multiline: bool,
    pub execute: bool,
    pub write_file: Option<WriterView>,
    pub regex: Option<RegexView>,
    pub replacement: TemplateView,
}

/// The argument of `s`.
#[derive(Debug)]
pub struct Substitution {
    /// The match that is replaced, from 1; 0 stands for every match.
    pub occurrence: usize,
    /// Whether every later match is replaced, too.
    pub global: bool,
    /// Whether the result is printed.
    pub print_flag: bool,
    /// Whether printing comes before execution.
    pub p_before_e: bool,
    /// Whether case is ignored.
    pub ignore_case: bool,
    /// Whether `^` and `$` match at line ends inside the text.
    pub multiline: bool,
    /// Whether the result is run as a command.
    pub execute: bool,
    /// The file that the result is written to.
    pub write_file: Option<NamedWriter>,
    /// The expression; none stands for the last one that was used.
    pub regex: Option<Regex>,
    /// What is put in place of a match.
    pub replacement: ReplacementTemplate,
}

impl View for Substitution {
    type V = SubstitutionView;

    open spec fn view(&self) -> SubstitutionView {
        SubstitutionView {
            occurrence: self.occurrence,
            global: self.global,
            print_flag: self.print_flag,
            p_before_e: self.p_before_e,
            ignore_case: self.ignore_case,
            multiline: self.multiline,
            execute: self.execute,
            write_file: opt_view(self.write_file),
            regex: opt_view(self.regex),
            replacement: self.replacement@,
        }
    }
}

/// A substitution with nothing filled in.
pub open spec fn empty_substitution() -> SubstitutionView {
    SubstitutionView {
        occurrence: 0,
        global: false,
        print_flag: false,
        p_before_e: false,
        ignore_case: false,
        multiline: false,
        execute: false,
        write_file: None,
        regex: None,
        replacement: template_of(Seq::empty()),
    }
}

impl Default for Substitution {
    fn default() -> (substitution: Self)
        ensures
            substitution@ == empty_substitution(),
    {
        Substitution {
            occurrence: 0,
            global: false,
            print_flag: false,
            p_before_e: false,
            ignore_case: false,
            multiline: false,
            execute: false,
            write_file: None,
            regex: None,
            replacement: ReplacementTemplate::default(),
        }
    }
}

/// What a [`Transliteration`] holds.
#[verifier::ext_equal]
pub enum TransliterationView {
    Bytes(Seq<u8>, Seq<u8>),
    Text(Seq<char>, Seq<char>),
}

/// The argument of `y`: each unit of the first string becomes the one at the same place in
/// the second.
#[derive(Debug)]
pub enum Transliteration {
    /// By bytes.
    Bytes(Vec<u8>, Vec<u8>),
    /// By characters.
    Text(Vec<char>, Vec<char>),
}

impl View for Transliteration {
    type V = TransliterationView;

    open spec fn view(&self) -> TransliterationView {
        match *self {
            Transliteration::Bytes(source, target) => TransliterationView::Bytes(
                source@,
                target@,
            ),
            Transliteration::Text(source, target) => TransliterationView::Text(source@, target@),
        }
    }
}

/// What stands in `target` where `item` stands last in `source`, or `item` if it does not
/// stand there.
pub open spec fn image<T>(source: Seq<T>, target: Seq<T>, item: T) -> T
    decreases source.len(),
{
    if source.len() == 0 {
        item
    } else if source.last() == item {
        target[source.len() - 1]
    } else {
        image(source.drop_last(), target, item)
    }
}

impl Transliteration {
    /// The transliteration of the bytes `source` to the bytes `target`.
    pub fn from_bytes(source: &[u8], target: &[u8]) -> (result: Self)
        requires
            source.len() == target.len(),
        ensures
            result@ == TransliterationView::Bytes(source@, target@),
    {
        let from = copy_range(source, 0, source.len());
        let to = copy_range(target, 0, target.len());
        assert(from@ =~= source@);
        assert(to@ =~= target@);
        Transliteration::Bytes(from, to)
    }

    /// The transliteration of the characters of `source` to those of `target`.
    pub fn from_strings(source: &str, target: &str) -> (result: Self)
        requires
            source@.len() == target@.len(),
        ensures
            result@ == TransliterationView::Text(source@, target@),
    {
        Transliteration::Text(chars_of(source), chars_of(target))
    }

    /// What becomes of the byte `b`.
    pub fn lookup_byte(&self, b: u8) -> (result: u8)
        requires
            self@ matches TransliterationView::Bytes(source, target) && source.len()
                == target.len(),
        ensures
            result == image(self@->Bytes_0, self@->Bytes_1, b),
    {
        match self {
            Transliteration::Bytes(source, target) => {
                let mut i: usize = source.len();
                assert(source@.take(i as int) =~= source@);
                while i > 0
                    invariant
                        i <= source.len() == target.len(),
                        self@ == TransliterationView::Bytes(source@, target@),
                        image(source@.take(i as int), target@, b) == image(source@, target@, b),
                    decreases i,
                {
                    assert(source@.take(i as int).drop_last() =~= source@.take(i - 1));
                    i -= 1;
                    if source[i] == b {
                        return target[i];
                    }
                }
                b
            },
            Transliteration::Text(..) => b,
        }
    }

    /// What becomes of the character `c`.
    pub fn lookup_char(&self, c: char) -> (result: char)
        requires
            self@ matches TransliterationView::Text(source, target) && source.len()
                == target.len(),
        ensures
            result == image(self@->Text_0, self@->Text_1, c),
    {
        match self {
            Transliteration::Text(source, target) => {
                let mut i: usize = source.len();
                assert(source@.take(i as int) =~= source@);
                while i > 0
                    invariant
                        i <= source.len() == target.len(),
                        self@ == TransliterationView::Text(source@, target@),
                        image(source@.take(i as int), target@, c) == image(source@, target@, c),
                    decreases i,
                {
                    assert(source@.take(i as int).drop_last() =~= source@.take(i - 1));
                    i -= 1;
                    if source[i] == c {
                        return target[i];
                    }
                }
                c
            },
            Transliteration::Bytes(..) => c,
        }
    }
}

/// What a [`CommandData`] holds.
#[verifier::ext_equal]
pub enum DataView {
    Empty,
    Label(Option<Seq<char>>),
    BranchTarget(Option<usize>),
    Path(Seq<u8>),
    NamedWriter(WriterView),
    NamedReader(ReaderView),
    Number(usize),
    Substitution(SubstitutionView),
    Text(Seq<u8>),
    Transliteration(TransliterationView),
}

/// The argument of a command. Other commands are named by their position among all compiled
/// commands.
#[derive(Debug)]
pub enum CommandData {
    /// No argument.
    Empty,
    /// The label of `:`, or the one that `b`, `t` or `T` names.
    Label(Option<String>),
    /// The command that a branch leads to, or the first of a block; none is the end of the
    /// script, or an empty block.
    BranchTarget(Option<usize>),
    /// The file of `r`.
    Path(Vec<u8>),
    /// The file of `w` or `W`.
    NamedWriter(NamedWriter),
    /// The file of `R`.
    NamedReader(NamedReader),
    /// The number of `l`, `q` or `Q`.
    Number(usize),
    /// The argument of `s`.
    Substitution(Box<Substitution>),
    /// The text of `a`, `c`, `i` or `e`.
    Text(Vec<u8>),
    /// The argument of `y`.
    Transliteration(Box<Transliteration>),
}

impl View for CommandData {
    type V = DataView;

    open spec fn view(&self) -> DataView {
        match *self {
            CommandData::Empty => DataView::Empty,
            CommandData::Label(label) => DataView::Label(opt_view(label)),
            CommandData::BranchTarget(target) => DataView::BranchTarget(target),
            CommandData::Path(path) => DataView::Path(path@),
            CommandData::NamedWriter(writer) => DataView::NamedWriter(writer@),
            CommandData::NamedReader(reader) => DataView::NamedReader(reader@),
            CommandData::Number(n) => DataView::Number(n),
            CommandData::Substitution(subst) => DataView::Substitution((*subst)@),
            CommandData::Text(text) => DataView::Text(text@),
            CommandData::Transliteration(trans) => DataView::Transliteration((*trans)@),
        }
    }
}

/// What a [`Command`] holds.
pub struct CommandView {
    pub code: char,
    pub non_select: bool,
    pub addr1: Option<AddressView>,
    pub addr2: Option<AddressView>,
    pub location: LocationView,
    pub next: Option<usize>,
    pub data: DataView,
}

/// A compiled command.
#[derive(Debug)]
pub struct Command {
    /// The letter that names it.
    pub code: char,
    /// Whether it applies to the lines that its addresses do not select.
    pub non_select: bool,
    /// Its first address.
    pub addr1: Option<Address>,
    /// Its second address.
    pub addr2: Option<Address>,
    /// Where the script defines it.
    pub location: ScriptLocation,
    /// The command that follows it.
    pub next: Option<usize>,
    /// Its argument.
    pub data: CommandData,
}

impl View for Command {
    type V = CommandView;

    open spec fn view(&self) -> CommandView {
        CommandView {
            code: self.code,
            non_select: self.non_select,
            addr1: opt_view(self.addr1),
            addr2: opt_view(self.addr2),
            location: self.location@,
            next: self.next,
            data: self.data@,
        }
    }
}

/// A command with nothing filled in but its place.
pub open spec fn blank_command(location: LocationView) -> CommandView {
    CommandView {
        code: '_',
        non_select: false,
        addr1: None,
        addr2: None,
        location,
        next: None,
        data: DataView::Empty,
    }
}

impl Default for Command {
    fn default() -> (command: Self)
        ensures
            command@ == blank_command(unknown_location()),
    {
        Command::blank(ScriptLocation::default())
    }
}

impl Command {
    /// A command at `location` with nothing else filled in.
    fn blank(location: ScriptLocation) -> (command: Self)
        ensures
            command@ == blank_command(location@),
    {
        Command {
            code: '_',
            non_select: false,
            addr1: None,
            addr2: None,
            location,
            next: None,
            data: CommandData::Empty,
        }
    }

    /// A command at the place that the providers have reached, with nothing else filled in.
    pub fn at_position(lines: &ScriptLineProvider, line: &ScriptCharProvider) -> (command: Self)
        ensures
            command@ == blank_command(
                (LocationView {
                    name: lines@.name,
                    line: lines@.number,
                    column: column_of(line@),
                }),
            ),
    {
        Command::blank(ScriptLocation::at_position(lines, line))
    }
}

/// What is to be done with the input when the next line is processed.
#[derive(Debug)]
pub struct InputAction {
    /// The text that goes before the next line.
    pub prepend: Option<Vec<u8>>,
}

impl View for InputAction {
    type V = Option<Seq<u8>>;

    open spec fn view(&self) -> Option<Seq<u8>> {
        opt_view(self.prepend)
    }
}

/// The options that a [`ProcessingContext`] holds.
pub struct OptionsView {
    pub posix: bool,
    pub sandbox: bool,
    pub no_exec: bool,
    pub regex_extended: bool,
    pub character_mode: CharacterMode,
    pub length: usize,
    pub null_data: bool,
    pub in_place: bool,
    pub in_place_suffix: Option<Seq<char>>,
    pub follow_symlinks: bool,
    pub separate: bool,
    pub current_dir: Option<Seq<u8>>,
    pub utf8_paths: bool,
    pub drive_paths: bool,
}

/// The state of the input that a [`ProcessingContext`] holds.
pub struct InputView {
    pub input_name: Seq<char>,
    pub line_number: usize,
    pub last_file: bool,
    pub stop_processing: bool,
    pub input_action: Option<Option<Seq<u8>>>,
}

/// What a [`ProcessingContext`] holds.
pub struct ContextView {
    pub options: OptionsView,
    pub quiet: bool,
    pub parsed_block_nesting: usize,
    pub commands: Seq<CommandView>,
    pub labels: Map<Seq<char>, usize>,
    pub range_commands: Seq<usize>,
    pub writers: Seq<WriterView>,
    pub input: InputView,
}

/// The options, the compiled commands and the state of processing.
pub struct ProcessingContext {
    /// Only what POSIX defines is accepted.
    pub posix: bool,
    /// No command may run programs or touch files.
    pub sandbox: bool,
    /// There is no shell to run programs with.
    pub no_exec: bool,
    /// Regular expressions are extended ones.
    pub regex_extended: bool,
    /// The unit that text is handled by.
    pub character_mode: CharacterMode,
    /// Lines are not printed by default.
    pub quiet: bool,
    /// The line length that `l` wraps at by default.
    pub length: usize,
    /// Lines end in NUL.
    pub null_data: bool,
    /// Files are edited in place.
    pub in_place: bool,
    /// What is added to the name of a file to name its backup.
    pub in_place_suffix: Option<String>,
    /// Symbolic links are followed when a file is edited in place.
    pub follow_symlinks: bool,
    /// Every file is a stream of its own.
    pub separate: bool,
    /// The directory that relative paths of `r` start from, if it is known. It is none that
    /// starts with `\\?\`: `.` and `..` behind such a directory would be taken out.
    pub current_dir: Option<Vec<u8>>,
    /// Whether the platform has only paths that are valid UTF-8.
    pub utf8_paths: bool,
    /// Whether the platform has drives, so that `\` separates names too and a path may start with
    /// a drive or a share.
    pub drive_paths: bool,
    /// How many blocks are open.
    pub parsed_block_nesting: usize,
    /// The compiled commands. They name each other by their positions here.
    pub commands: Vec<Command>,
    /// The commands that labels stand for.
    pub label_to_command_map: StringHashMap<usize>,
    /// The commands that have two addresses.
    pub range_commands: Vec<usize>,
    /// The output files that the script names, in the order in which it does.
    pub writers: Vec<NamedWriter>,
    /// The name of the input.
    pub input_name: String,
    /// The number of the input line.
    pub line_number: usize,
    /// Whether the last input file is being read.
    pub last_file: bool,
    /// Whether processing has come to its end.
    pub stop_processing: bool,
    /// What is to be done when the next line is processed.
    pub input_action: Option<InputAction>,
}

/// What the commands hold.
pub open spec fn commands_view(commands: Seq<Command>) -> Seq<CommandView> {
    commands.map_values(|c: Command| c@)
}

/// What the writers hold.
pub open spec fn writers_view(writers: Seq<NamedWriter>) -> Seq<WriterView> {
    writers.map_values(|w: NamedWriter| w@)
}

impl ProcessingContext {
    /// The options.
    pub open spec fn options(&self) -> OptionsView {
        OptionsView {
            posix: self.posix,
            sandbox: self.sandbox,
            no_exec: self.no_exec,
            regex_extended: self.regex_extended,
            character_mode: self.character_mode,
            length: self.length,
            null_data: self.null_data,
            in_place: self.in_place,
            in_place_suffix: opt_view(self.in_place_suffix),
            follow_symlinks: self.follow_symlinks,
            separate: self.separate,
            current_dir: opt_view(self.current_dir),
            utf8_paths: self.utf8_paths,
            drive_paths: self.drive_paths,
        }
    }

    /// The state of the input.
    pub open spec fn input(&self) -> InputView {
        InputView {
            input_name: self.input_name@,
            line_number: self.line_number,
            last_file: self.last_file,
            stop_processing: self.stop_processing,
            input_action: opt_view(self.input_action),
        }
    }
}

impl View for ProcessingContext {
    type V = ContextView;

    open spec fn view(&self) -> ContextView {
        ContextView {
            options: self.options(),
            quiet: self.quiet,
            parsed_block_nesting: self.parsed_block_nesting,
            commands: commands_view(self.commands@),
            labels: self.label_to_command_map@,
            range_commands: self.range_commands@,
            writers: writers_view(self.writers@),
            input: self.input(),
        }
    }
}

/// A context with all options off and nothing compiled or processed.
pub open spec fn default_context() -> ContextView {
    ContextView {
        options: OptionsView {
            posix: false,
            sandbox: false,
            no_exec: false,
            regex_extended: false,
            character_mode: CharacterMode::Utf8,
            length: 70,
            null_data: false,
            in_place: false,
            in_place_suffix: None,
            follow_symlinks: false,
            separate: false,
            current_dir: None,
            utf8_paths: false,
            drive_paths: false,
        },
        quiet: false,
        parsed_block_nesting: 0,
        commands: Seq::empty(),
        labels: Map::empty(),
        range_commands: Seq::empty(),
        writers: Seq::empty(),
        input: InputView {
            input_name: Seq::empty(),
            line_number: 0,
            last_file: false,
            stop_processing: false,
            input_action: None,
        },
    }
}

impl Default for ProcessingContext {
    fn default() -> (context: Self)
        ensures
            context@ == default_context(),
    {
        let context = ProcessingContext {
            posix: false,
            sandbox: false,
            no_exec: false,
            regex_extended: false,
            character_mode: CharacterMode::Utf8,
            quiet: false,
            length: 70,
            null_data: false,
            in_place: false,
            in_place_suffix: None,
            follow_symlinks: false,
            separate: false,
            current_dir: None,
            utf8_paths: false,
            drive_paths: false,
            parsed_block_nesting: 0,
            commands: Vec::new(),
            label_to_command_map: StringHashMap::new(),
            range_commands: Vec::new(),
            writers: Vec::new(),
            input_name: String::new(),
            line_number: 0,
            last_file: false,
            stop_processing: false,
            input_action: None,
        };
        assert(context@.commands =~= Seq::empty());
        assert(context@.range_commands =~= Seq::empty());
        assert(context@.writers =~= Seq::empty());
        assert(context@.labels =~= Map::empty());
        context
    }
}

/// The output files that are named once `writer` is named, too. The editor's own output is
/// no file.
pub open spec fn with_writer(writers: Seq<WriterView>, writer: WriterView) -> Seq<WriterView> {
    if writer.path == standard_output_path() {
        writers
    } else {
        writers.push(writer)
    }
}

impl ProcessingContext {
    /// Makes lines not be printed by default.
    pub fn suppress_output(&mut self)
        ensures
            final(self)@ == (ContextView { quiet: true, ..old(self)@ }),
    {
        self.quiet = true;
    }

    /// Takes note of how deep blocks are nested.
    pub fn set_block_nesting(&mut self, depth: usize)
        ensures
            final(self)@ == (ContextView { parsed_block_nesting: depth, ..old(self)@ }),
    {
        self.parsed_block_nesting = depth;
    }

    /// Takes note of an output file that the script names.
    pub fn register_writer(&mut self, writer: &NamedWriter)
        ensures
            final(self)@ == (ContextView {
                writers: with_writer(old(self)@.writers, writer@),
                ..old(self)@
            }),
    {
        if !writer.is_standard_output() {
            self.writers.push(writer.duplicate());
            assert(self@.writers =~= old(self)@.writers.push(writer@));
        }
    }
}

} // verus!
