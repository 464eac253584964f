//! Command-line arguments: flags, their numbers, and the paths to walk.

use crate::options::Options;
use vstd::prelude::*;
use vstd::string::{StrSliceExecFns, StringExecFns};

verus! {

/// Why a command line was refused.
#[derive(Debug, PartialEq, Eq)]
pub enum ParseError {
    /// A flag that takes a number was followed by something else.
    InvalidNumber {
        /// The whole argument.
        arg: String,
        /// The part that should have been a number.
        value: String,
    },
    /// An argument starts with `-` but is no known flag.
    UnknownOption {
        /// The whole argument.
        arg: String,
    },
}

/// Mathematical model of a [`ParseError`].
pub enum ParseErrorView {
    InvalidNumber { arg: Seq<char>, value: Seq<char> },
    UnknownOption { arg: Seq<char> },
}

impl View for ParseError {
    type V = ParseErrorView;

    open spec fn view(&self) -> ParseErrorView {
        match self {
            ParseError::InvalidNumber { arg, value } => ParseErrorView::InvalidNumber {
                arg: arg@,
                value: value@,
            },
            ParseError::UnknownOption { arg } => ParseErrorView::UnknownOption { arg: arg@ },
        }
    }
}

impl ParseErrorView {
    /// The text that tells the user of the error.
    pub open spec fn message(self) -> Seq<char> {
        match self {
            ParseErrorView::InvalidNumber { arg, value } => "'"@ + arg + "' の値部分 '"@ + value
                + "' は数値ではありません"@,
            ParseErrorView::UnknownOption { arg } => "Unknown option: "@ + arg,
        }
    }
}

impl ParseError {
    /// The text that tells the user of the error.
    pub fn message(&self) -> (text: String)
        ensures
            text@ == self@.message(),
    {
        match self {
            ParseError::InvalidNumber { arg, value } => {
                let mut text = String::from_str("'");
                text.append(arg.as_str());
                text.append("' の値部分 '");
                text.append(value.as_str());
                text.append("' は数値ではありません");
                text
            },
            ParseError::UnknownOption { arg } => {
                let mut text = String::from_str("Unknown option: ");
                text.append(arg.as_str());
                text
            },
        }
    }
}

/// Whether `c` is one of the ten decimal digits.
pub open spec fn is_digit(c: char) -> bool {
    '0' <= c && c <= '9'
}

/// The number that a string of decimal digits denotes.
pub open spec fn numeral_value(digits: Seq<char>) -> nat
    decreases digits.len(),
{
    if digits.len() == 0 {
        0
    } else {
        numeral_value(digits.drop_last()) * 10 + (digits.last() as nat - '0' as nat) as nat
    }
}

/// Whether `digits` is a non-empty string of decimal digits.
pub open spec fn is_numeral(digits: Seq<char>) -> bool {
    digits.len() > 0 && forall|i: int| 0 <= i < digits.len() ==> is_digit(#[trigger] digits[i])
}

/// `text` without a leading plus sign, if it has one.
pub open spec fn unsigned_part(text: Seq<char>) -> Seq<char> {
    if text.len() > 0 && text[0] == '+' {
        text.skip(1)
    } else {
        text
    }
}

/// The number that `text` denotes: an optional `+`, then one or more decimal
/// digits whose value fits in 64 bits. Anything else denotes no number.
pub open spec fn number_of(text: Seq<char>) -> Option<u64> {
    let digits = unsigned_part(text);
    if is_numeral(digits) && numeral_value(digits) <= u64::MAX {
        Some(numeral_value(digits) as u64)
    } else {
        None
    }
}

/// Whether `text` starts with a minus sign.
pub open spec fn is_negative(text: Seq<char>) -> bool {
    text.len() > 0 && text[0] == '-'
}

/// `text` without a leading plus or minus sign, if it has one.
pub open spec fn magnitude_part(text: Seq<char>) -> Seq<char> {
    if text.len() > 0 && (text[0] == '+' || text[0] == '-') {
        text.skip(1)
    } else {
        text
    }
}

/// The signed number that `text` denotes: an optional `+` or `-`, then one or
/// more decimal digits, the whole within the range of 32-bit signed numbers.
/// Anything else denotes no number; a number outside that range is not cut
/// down to fit.
pub open spec fn level_of(text: Seq<char>) -> Option<i32> {
    let digits = magnitude_part(text);
    let value = if is_negative(text) {
        -(numeral_value(digits) as int)
    } else {
        numeral_value(digits) as int
    };
    if is_numeral(digits) && i32::MIN <= value <= i32::MAX {
        Some(value as i32)
    } else {
        None
    }
}

/// The models of a sequence of string slices, in the same order.
pub open spec fn str_views(texts: Seq<&str>) -> Seq<Seq<char>> {
    Seq::new(texts.len(), |i: int| texts[i]@)
}

/// The models of a sequence of strings, in the same order.
pub open spec fn string_views(texts: Seq<String>) -> Seq<Seq<char>> {
    Seq::new(texts.len(), |i: int| texts[i]@)
}

/// What `arg` gives to a flag spelled with one of `prefixes`: the text that
/// follows the first of them that `arg` starts with. If `arg` starts with
/// none of them, it is not this flag.
pub open spec fn flag_text(prefixes: Seq<Seq<char>>, arg: Seq<char>) -> Option<Seq<char>>
    decreases prefixes.len(),
{
    if prefixes.len() == 0 {
        None
    } else if prefixes[0].is_prefix_of(arg) {
        Some(arg.skip(prefixes[0].len() as int))
    } else {
        flag_text(prefixes.skip(1), arg)
    }
}

/// The unsigned number that `arg` gives to a flag spelled with one of
/// `prefixes`: what follows the flag must be such a number.
pub open spec fn flag_value(prefixes: Seq<Seq<char>>, arg: Seq<char>) -> Result<
    Option<u64>,
    ParseErrorView,
> {
    match flag_text(prefixes, arg) {
        None => Ok(None),
        Some(value) => match number_of(value) {
            Some(n) => Ok(Some(n)),
            None => Err(ParseErrorView::InvalidNumber { arg, value }),
        },
    }
}

/// The signed number that `arg` gives to a flag spelled with one of
/// `prefixes`: what follows the flag must be such a number.
pub open spec fn signed_flag_value(prefixes: Seq<Seq<char>>, arg: Seq<char>) -> Result<
    Option<i32>,
    ParseErrorView,
> {
    match flag_text(prefixes, arg) {
        None => Ok(None),
        Some(value) => match level_of(value) {
            Some(n) => Ok(Some(n)),
            None => Err(ParseErrorView::InvalidNumber { arg, value }),
        },
    }
}

/// Adding a digit to a numeral multiplies its value by ten and adds the digit.
proof fn lemma_numeral_value_push(digits: Seq<char>, c: char)
    ensures
        numeral_value(digits.push(c)) == numeral_value(digits) * 10 + (c as nat
            - '0' as nat) as nat,
{
    assert(digits.push(c).drop_last() =~= digits);
}

/// The value of a numeral is no smaller than that of any shorter start of it.
proof fn lemma_numeral_value_grows(digits: Seq<char>, k: int)
    requires
        0 <= k <= digits.len(),
        forall|i: int| 0 <= i < digits.len() ==> is_digit(#[trigger] digits[i]),
    ensures
        numeral_value(digits.take(k)) <= numeral_value(digits),
    decreases digits.len() - k,
{
    if k == digits.len() {
        assert(digits.take(k) =~= digits);
    } else {
        lemma_numeral_value_grows(digits, k + 1);
        assert(digits.take(k + 1).drop_last() =~= digits.take(k));
        assert(is_digit(digits[k]));
    }
}

/// Reads `text[from..]` as a string of decimal digits whose value is at most
/// `limit`.
fn read_digits(text: &Vec<char>, from: usize, limit: u64) -> (number: Option<u64>)
    requires
        from <= text@.len(),
        limit >= 9,
    ensures
        number == if is_numeral(text@.skip(from as int)) && numeral_value(
            text@.skip(from as int),
        ) <= limit {
            Some(numeral_value(text@.skip(from as int)) as u64)
        } else {
            None
        },
{
    let ghost digits = text@.skip(from as int);
    if from == text.len() {
        return None;
    }
    let mut value: u64 = 0;
    let mut i: usize = from;
    while i < text.len()
        invariant
            from <= i <= text@.len(),
            from < text@.len(),
            limit >= 9,
            digits == text@.skip(from as int),
            forall|k: int| 0 <= k < i - from ==> is_digit(#[trigger] digits[k]),
            value == numeral_value(digits.take(i - from)),
            value <= limit,
        decreases text@.len() - i,
    {
        let c = text[i];
        if c < '0' || c > '9' {
            assert(!is_digit(digits[i - from]));
            return None;
        }
        let d: u64 = (c as u64) - ('0' as u64);
        proof {
            assert(digits.take(i - from + 1) =~= digits.take(i - from).push(c));
            lemma_numeral_value_push(digits.take(i - from), c);
        }
        if value > (limit - d) / 10 {
            proof {
                if is_numeral(digits) {
                    lemma_numeral_value_grows(digits, i - from + 1);
                }
            }
            return None;
        }
        value = value * 10 + d;
        i = i + 1;
    }
    assert(digits.take(i - from) =~= digits);
    Some(value)
}

/// Reads the unsigned number that `text[from..]` denotes, if it denotes one.
fn parse_number(text: &Vec<char>, from: usize) -> (number: Option<u64>)
    requires
        from <= text@.len(),
    ensures
        number == number_of(text@.skip(from as int)),
{
    let mut start: usize = from;
    if start < text.len() && text[start] == '+' {
        start = start + 1;
    }
    assert(text@.skip(start as int) =~= unsigned_part(text@.skip(from as int)));
    read_digits(text, start, u64::MAX)
}

/// Reads the signed number that `text[from..]` denotes, if it denotes one.
fn parse_level(text: &Vec<char>, from: usize) -> (level: Option<i32>)
    requires
        from <= text@.len(),
    ensures
        level == level_of(text@.skip(from as int)),
{
    let mut start: usize = from;
    let mut negative = false;
    if start < text.len() {
        if text[start] == '+' {
            start = start + 1;
        } else if text[start] == '-' {
            negative = true;
            start = start + 1;
        }
    }
    assert(text@.skip(start as int) =~= magnitude_part(text@.skip(from as int)));
    assert(negative == is_negative(text@.skip(from as int)));
    if negative {
        match read_digits(text, start, 0x8000_0000) {
            Some(magnitude) => Some((-(magnitude as i64)) as i32),
            None => None,
        }
    } else {
        match read_digits(text, start, 0x7fff_ffff) {
            Some(magnitude) => Some(magnitude as i32),
            None => None,
        }
    }
}

/// Whether `text` starts with `prefix`.
fn starts_with(text: &Vec<char>, prefix: &Vec<char>) -> (yes: bool)
    ensures
        yes == prefix@.is_prefix_of(text@),
{
    if prefix.len() > text.len() {
        return false;
    }
    let mut i: usize = 0;
    while i < prefix.len()
        invariant
            i <= prefix@.len() <= text@.len(),
            forall|k: int| 0 <= k < i ==> prefix@[k] == text@[k],
        decreases prefix@.len() - i,
    {
        if prefix[i] != text[i] {
            assert(prefix@ != text@.subrange(0, prefix@.len() as int)) by {
                assert(text@.subrange(0, prefix@.len() as int)[i as int] == text@[i as int]);
            }
            return false;
        }
        i = i + 1;
    }
    assert(prefix@ =~= text@.subrange(0, prefix@.len() as int));
    true
}

/// The characters of `text`.
fn chars_of(text: &str) -> (chars: Vec<char>)
    ensures
        chars@ == text@,
{
    let mut chars: Vec<char> = Vec::new();
    for c in it: text.chars()
        invariant
            it.seq() == text@,
            chars@ == text@.take(it.index()),
    {
        chars.push(c);
        assert(chars@ =~= text@.take(it.index() + 1));
    }
    assert(text@.take(text@.len() as int) =~= text@);
    chars
}

/// Finds where in `text` the value of the flag spelled with one of
/// `prefixes` begins, if `text` is that flag.
fn flag_start(prefixes: &[&str], text: &Vec<char>) -> (start: Option<usize>)
    ensures
        match start {
            Some(from) => from <= text@.len() && flag_text(str_views(prefixes@), text@) == Some(
                text@.skip(from as int),
            ),
            None => flag_text(str_views(prefixes@), text@) is None,
        },
{
    let ghost all = str_views(prefixes@);
    let mut i: usize = 0;
    assert(all.skip(0) =~= all);
    while i < prefixes.len()
        invariant
            i <= prefixes@.len(),
            all == str_views(prefixes@),
            flag_text(all, text@) == flag_text(all.skip(i as int), text@),
        decreases prefixes@.len() - i,
    {
        let prefix = chars_of(prefixes[i]);
        proof {
            assert(all.skip(i as int)[0] == prefix@);
            assert(all.skip(i as int).skip(1) =~= all.skip(i + 1));
        }
        if starts_with(text, &prefix) {
            return Some(prefix.len());
        }
        i = i + 1;
    }
    None
}

/// The error for an argument whose flag is followed, from `from` on, by
/// something that is no number.
fn invalid_number(arg: &str, from: usize) -> (error: ParseError)
    requires
        from <= arg@.len(),
    ensures
        error@ == (ParseErrorView::InvalidNumber { arg: arg@, value: arg@.skip(from as int) }),
{
    let value = arg.substring_char(from, arg.unicode_len());
    assert(value@ =~= arg@.skip(from as int));
    ParseError::InvalidNumber { arg: String::from_str(arg), value: String::from_str(value) }
}

/// Reads the unsigned number that `arg` gives to the flag spelled with one
/// of `prefixes`: `Ok(None)` if `arg` is not that flag, an error if it is that
/// flag without such a number.
pub fn parse_int_arg(prefixes: &[&str], arg: &str) -> (result: Result<Option<u64>, ParseError>)
    ensures
        match result {
            Ok(number) => flag_value(str_views(prefixes@), arg@) == Ok::<
                Option<u64>,
                ParseErrorView,
            >(number),
            Err(error) => flag_value(str_views(prefixes@), arg@) == Err::<
                Option<u64>,
                ParseErrorView,
            >(error@),
        },
{
    let text = chars_of(arg);
    match flag_start(prefixes, &text) {
        None => Ok(None),
        Some(from) => match parse_number(&text, from) {
            Some(number) => Ok(Some(number)),
            None => Err(invalid_number(arg, from)),
        },
    }
}

/// Reads the signed number that `arg` gives to the flag spelled with one of
/// `prefixes`: `Ok(None)` if `arg` is not that flag, an error if it is that
/// flag without such a number.
pub fn parse_signed_arg(prefixes: &[&str], arg: &str) -> (result: Result<Option<i32>, ParseError>)
    ensures
        match result {
            Ok(number) => signed_flag_value(str_views(prefixes@), arg@) == Ok::<
                Option<i32>,
                ParseErrorView,
            >(number),
            Err(error) => signed_flag_value(str_views(prefixes@), arg@) == Err::<
                Option<i32>,
                ParseErrorView,
            >(error@),
        },
{
    let text = chars_of(arg);
    match flag_start(prefixes, &text) {
        None => Ok(None),
        Some(from) => match parse_level(&text, from) {
            Some(number) => Ok(Some(number)),
            None => Err(invalid_number(arg, from)),
        },
    }
}

/// What one argument of a command line is.
pub enum Argument {
    /// The flag that sets the deepest reported level, with its number.
    MaxDepth(i32),
    /// The flag that sets the size threshold, with its number.
    Threshold(u64),
    /// The flag that selects human-readable sizes.
    HumanReadable,
    /// A path to walk.
    Path,
    /// Not acceptable, and why.
    Invalid(ParseErrorView),
}

/// The spellings of the flag for the deepest reported level.
pub open spec fn depth_flags() -> Seq<Seq<char>> {
    seq!["-d"@, "--max-depth="@]
}

/// The spellings of the flag for the size threshold.
pub open spec fn threshold_flags() -> Seq<Seq<char>> {
    seq!["-t"@, "--threshold="@]
}

/// Tells what `arg` is. The depth flag, which takes a signed number, is tried
/// first, then the threshold flag, which takes an unsigned one, then the flag
/// for human-readable sizes; of what is left, anything that starts with `-`
/// is refused and the rest is a path.
pub open spec fn classify(arg: Seq<char>) -> Argument {
    match signed_flag_value(depth_flags(), arg) {
        Err(error) => Argument::Invalid(error),
        Ok(Some(n)) => Argument::MaxDepth(n),
        Ok(None) => match flag_value(threshold_flags(), arg) {
            Err(error) => Argument::Invalid(error),
            Ok(Some(n)) => Argument::Threshold(n),
            Ok(None) => if arg == "-h"@ || arg == "--human-readable"@ {
                Argument::HumanReadable
            } else if arg.len() > 0 && arg[0] == '-' {
                Argument::Invalid(ParseErrorView::UnknownOption { arg })
            } else {
                Argument::Path
            },
        },
    }
}

/// What a command line asks for.
pub struct Request {
    pub paths: Seq<Seq<char>>,
    pub options: Options,
}

impl Request {
    /// The request of an empty command line: no path yet, standard options.
    pub open spec fn initial() -> Request {
        Request { paths: Seq::empty(), options: Options::standard() }
    }

    /// The request after one more acceptable argument.
    pub open spec fn with(self, arg: Seq<char>) -> Request {
        match classify(arg) {
            Argument::MaxDepth(n) => Request {
                options: Options { max_depth: n, ..self.options },
                ..self
            },
            Argument::Threshold(n) => Request {
                options: Options { threshold: n, ..self.options },
                ..self
            },
            Argument::HumanReadable => Request {
                options: Options { human_readable: true, ..self.options },
                ..self
            },
            Argument::Path => Request { paths: self.paths.push(arg), ..self },
            Argument::Invalid(_) => self,
        }
    }

    /// The paths to walk: those given, or the current directory if none was.
    pub open spec fn roots(self) -> Seq<Seq<char>> {
        if self.paths.len() == 0 {
            seq!["."@]
        } else {
            self.paths
        }
    }
}

/// The request that `args` make together, each argument building on those
/// before it, so that of two settings of one option the later one holds.
pub open spec fn request_of(args: Seq<Seq<char>>) -> Request
    decreases args.len(),
{
    if args.len() == 0 {
        Request::initial()
    } else {
        request_of(args.drop_last()).with(args.last())
    }
}

/// The reason for which the first unacceptable argument of `args` is refused,
/// if there is such an argument.
pub open spec fn first_error(args: Seq<Seq<char>>) -> Option<ParseErrorView>
    decreases args.len(),
{
    if args.len() == 0 {
        None
    } else {
        match first_error(args.drop_last()) {
            Some(error) => Some(error),
            None => match classify(args.last()) {
                Argument::Invalid(error) => Some(error),
                _ => None,
            },
        }
    }
}

/// `args` without the program name in front.
pub open spec fn after_program_name(args: Seq<Seq<char>>) -> Seq<Seq<char>> {
    if args.len() == 0 {
        args
    } else {
        args.skip(1)
    }
}

/// What a whole command line, program name first, means: the paths to walk
/// and the options, or the reason for which its first unacceptable argument
/// is refused.
pub open spec fn command_line(args: Seq<Seq<char>>) -> Result<
    (Seq<Seq<char>>, Options),
    ParseErrorView,
> {
    let given = after_program_name(args);
    match first_error(given) {
        Some(error) => Err(error),
        None => Ok((request_of(given).roots(), request_of(given).options)),
    }
}

/// Whether `text` is exactly `word`.
fn is_word(text: &Vec<char>, word: &str) -> (yes: bool)
    ensures
        yes == (text@ == word@),
{
    let letters = chars_of(word);
    let yes = letters.len() == text.len() && starts_with(text, &letters);
    proof {
        if yes {
            assert(text@ =~= text@.subrange(0, letters@.len() as int));
        }
        if text@ == word@ {
            assert(letters@ =~= text@.subrange(0, letters@.len() as int));
        }
    }
    yes
}

/// Reads a command line, program name first, into the paths to walk and the
/// options of the run. The first argument that is not acceptable ends the
/// reading with the reason for its refusal.
pub fn parse_args(args: Vec<String>) -> (result: Result<(Vec<String>, Options), ParseError>)
    ensures
        match result {
            Ok((paths, options)) => command_line(string_views(args@)) == Ok::<
                (Seq<Seq<char>>, Options),
                ParseErrorView,
            >((string_views(paths@), options)),
            Err(error) => command_line(string_views(args@)) == Err::<
                (Seq<Seq<char>>, Options),
                ParseErrorView,
            >(error@),
        },
{
    let ghost given = after_program_name(string_views(args@));
    let mut options = Options { max_depth: 3, threshold: 0, human_readable: false };
    let mut paths: Vec<String> = Vec::new();
    let mut i: usize = 1;
    if args.len() == 0 {
        i = 0;
    }
    let ghost offset: int = i as int;
    assert(given.take(0) =~= Seq::<Seq<char>>::empty());
    assert(string_views(paths@) =~= Seq::<Seq<char>>::empty());
    while i < args.len()
        invariant
            offset <= i <= args@.len(),
            offset == 0 || offset == 1,
            given == after_program_name(string_views(args@)),
            given.len() == args@.len() - offset,
            forall|k: int| 0 <= k < given.len() ==> given[k] == (#[trigger] args@[k + offset])@,
            first_error(given.take(i - offset)) is None,
            request_of(given.take(i - offset)) == (Request {
                paths: string_views(paths@),
                options,
            }),
        decreases args@.len() - i,
    {
        let arg = args[i].as_str();
        let ghost seen = given.take(i - offset + 1);
        let ghost before = string_views(paths@);
        proof {
            assert(seen.drop_last() =~= given.take(i - offset));
            assert(seen.last() == arg@);
            reveal_strlit("-d");
            reveal_strlit("--max-depth=");
            reveal_strlit("-t");
            reveal_strlit("--threshold=");
        }
        let depth_spellings = ["-d", "--max-depth="];
        assert(str_views(depth_spellings@) =~= depth_flags());
        match parse_signed_arg(depth_spellings.as_slice(), arg) {
            Err(error) => {
                proof {
                    lemma_first_error_found(given, i - offset);
                }
                return Err(error);
            },
            Ok(Some(n)) => {
                options.max_depth = n;
            },
            Ok(None) => {
                let threshold_spellings = ["-t", "--threshold="];
                assert(str_views(threshold_spellings@) =~= threshold_flags());
                match parse_int_arg(threshold_spellings.as_slice(), arg) {
                    Err(error) => {
                        proof {
                            lemma_first_error_found(given, i - offset);
                        }
                        return Err(error);
                    },
                    Ok(Some(n)) => {
                        options.threshold = n;
                    },
                    Ok(None) => {
                        let text = chars_of(arg);
                        if is_word(&text, "-h") || is_word(&text, "--human-readable") {
                            options.human_readable = true;
                        } else if text.len() > 0 && text[0] == '-' {
                            proof {
                                lemma_first_error_found(given, i - offset);
                            }
                            return Err(ParseError::UnknownOption { arg: args[i].clone() });
                        } else {
                            paths.push(args[i].clone());
                            assert(string_views(paths@) =~= before.push(arg@));
                        }
                    },
                }
            },
        }
        i = i + 1;
    }
    assert(given.take(i - offset) =~= given);
    if paths.len() == 0 {
        paths.push(String::from_str("."));
        assert(string_views(paths@) =~= seq!["."@]);
    }
    Ok((paths, options))
}

/// An unacceptable argument that follows only acceptable ones is the first.
proof fn lemma_first_error_found(args: Seq<Seq<char>>, k: int)
    requires
        0 <= k < args.len(),
        first_error(args.take(k)) is None,
        classify(args[k]) is Invalid,
    ensures
        first_error(args) == Some(classify(args[k])->Invalid_0),
    decreases args.len() - k,
{
    assert(args.take(k + 1).drop_last() =~= args.take(k));
    lemma_first_error_stays(args, k + 1);
}

/// Once a start of the arguments holds an unacceptable one, the reason for
/// refusal no longer changes.
proof fn lemma_first_error_stays(args: Seq<Seq<char>>, k: int)
    requires
        0 <= k <= args.len(),
        first_error(args.take(k)) is Some,
    ensures
        first_error(args) == first_error(args.take(k)),
    decreases args.len() - k,
{
    if k == args.len() {
        assert(args.take(k) =~= args);
    } else {
        assert(args.take(k + 1).drop_last() =~= args.take(k));
        lemma_first_error_stays(args, k + 1);
    }
}

} // verus!
