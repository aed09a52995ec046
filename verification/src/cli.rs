//! Reading the command line of the `css-inline` program.
//!
//! Flags are `--name`, `--name=value`, `--name value` for the flags that take a value, and
//! single-character short flags such as `-h`; anything else is a file to process.
use vstd::prelude::*;
use crate::text::{push_str, str_chars, string_is, trim};

verus! {

/// What the command line asks for.
pub struct ParsedArgs {
    pub help: bool,
    pub version: bool,
    pub files: Vec<String>,
    pub inline_style_tags: bool,
    pub keep_style_tags: bool,
    pub keep_link_tags: bool,
    pub keep_at_rules: bool,
    pub minify_css: bool,
    pub base_url: Option<String>,
    pub extra_css: Option<String>,
    pub extra_css_files: Vec<String>,
    pub output_filename_prefix: Option<String>,
    pub load_remote_stylesheets: bool,
}

impl Default for ParsedArgs {
    fn default() -> (r: Self)
        ensures
            r@ == default_args(),
    {
        let r = ParsedArgs {
            help: false,
            version: false,
            files: Vec::new(),
            inline_style_tags: true,
            keep_style_tags: false,
            keep_link_tags: false,
            keep_at_rules: false,
            minify_css: false,
            base_url: None,
            extra_css: None,
            extra_css_files: Vec::new(),
            output_filename_prefix: None,
            load_remote_stylesheets: false,
        };
        assert(strings_view(r.files@) =~= Seq::<Seq<char>>::empty());
        assert(strings_view(r.extra_css_files@) =~= Seq::<Seq<char>>::empty());
        r
    }
}

/// The flags that take a value when given without `=`.
pub open spec fn takes_value(flag: Seq<char>) -> bool {
    ||| flag == "inline-style-tags"@
    ||| flag == "base-url"@
    ||| flag == "extra-css"@
    ||| flag == "extra-css-file"@
    ||| flag == "output-filename-prefix"@
}

/// Whether `--flag` takes the next argument as its value.
pub fn requires_value(flag: &str) -> (r: bool)
    ensures
        r == takes_value(flag@),
{
    let f = flag.to_string();
    string_is(&f, "inline-style-tags") || string_is(&f, "base-url") || string_is(&f, "extra-css")
        || string_is(&f, "extra-css-file") || string_is(&f, "output-filename-prefix")
}

/// The message for a value that is not a boolean.
pub open spec fn bool_error(value: Seq<char>, flag: Seq<char>) -> Seq<char> {
    "Failed to parse value '"@ + value + "' for flag '"@ + flag
        + "': provided string was not `true` or `false`"@
}

/// A boolean value: `true` or `false`.
pub fn parse_bool_value(value: &str, flag: &str) -> (r: Result<bool, String>)
    ensures
        value@ == "true"@ ==> r == Ok::<bool, String>(true),
        value@ == "false"@ ==> r == Ok::<bool, String>(false),
        value@ != "true"@ && value@ != "false"@ ==> (r matches Err(m) && m@ == bool_error(value@, flag@)),
{
    proof {
        reveal_strlit("true");
        reveal_strlit("false");
        assert("false"@.len() == 5);
        assert("true"@.len() == 4);
        assert("false"@ != "true"@);
    }
    let v = value.to_string();
    assert(v@ == value@);
    if string_is(&v, "true") {
        Ok(true)
    } else if string_is(&v, "false") {
        Ok(false)
    } else {
        let mut m = String::new();
        push_str(&mut m, "Failed to parse value '");
        push_str(&mut m, value);
        push_str(&mut m, "' for flag '");
        push_str(&mut m, flag);
        push_str(&mut m, "': provided string was not `true` or `false`");
        assert(m@ =~= bool_error(value@, flag@));
        Err(m)
    }
}

/// What the command line asks for, as plain values.
pub struct ArgsView {
    pub help: bool,
    pub version: bool,
    pub files: Seq<Seq<char>>,
    pub inline_style_tags: bool,
    pub keep_style_tags: bool,
    pub keep_link_tags: bool,
    pub keep_at_rules: bool,
    pub minify_css: bool,
    pub base_url: Option<Seq<char>>,
    pub extra_css: Option<Seq<char>>,
    pub extra_css_files: Seq<Seq<char>>,
    pub output_filename_prefix: Option<Seq<char>>,
    pub load_remote_stylesheets: bool,
}

pub open spec fn opt_string_view(o: Option<String>) -> Option<Seq<char>> {
    match o {
        Some(s) => Some(s@),
        None => None,
    }
}

pub open spec fn strings_view(v: Seq<String>) -> Seq<Seq<char>> {
    v.map_values(|s: String| s@)
}

impl View for ParsedArgs {
    type V = ArgsView;

    open spec fn view(&self) -> ArgsView {
        ArgsView {
            help: self.help,
            version: self.version,
            files: strings_view(self.files@),
            inline_style_tags: self.inline_style_tags,
            keep_style_tags: self.keep_style_tags,
            keep_link_tags: self.keep_link_tags,
            keep_at_rules: self.keep_at_rules,
            minify_css: self.minify_css,
            base_url: opt_string_view(self.base_url),
            extra_css: opt_string_view(self.extra_css),
            extra_css_files: strings_view(self.extra_css_files@),
            output_filename_prefix: opt_string_view(self.output_filename_prefix),
            load_remote_stylesheets: self.load_remote_stylesheets,
        }
    }
}

/// The defaults: style tags are inlined, nothing else is asked for.
pub open spec fn default_args() -> ArgsView {
    ArgsView {
        help: false,
        version: false,
        files: seq![],
        inline_style_tags: true,
        keep_style_tags: false,
        keep_link_tags: false,
        keep_at_rules: false,
        minify_css: false,
        base_url: None,
        extra_css: None,
        extra_css_files: seq![],
        output_filename_prefix: None,
        load_remote_stylesheets: false,
    }
}

/// What a flag given with a value sets.
pub enum ValueFlag {
    InlineStyleTags,
    LoadRemoteStylesheets,
    BaseUrl,
    ExtraCss,
    ExtraCssFile,
    OutputFilenamePrefix,
    Unknown,
}

/// The flag that `--name=value` names.
pub open spec fn value_flag(flag: Seq<char>) -> ValueFlag {
    if flag == "inline-style-tags"@ {
        ValueFlag::InlineStyleTags
    } else if flag == "load-remote-stylesheets"@ {
        ValueFlag::LoadRemoteStylesheets
    } else if flag == "base-url"@ {
        ValueFlag::BaseUrl
    } else if flag == "extra-css"@ {
        ValueFlag::ExtraCss
    } else if flag == "extra-css-file"@ {
        ValueFlag::ExtraCssFile
    } else if flag == "output-filename-prefix"@ {
        ValueFlag::OutputFilenamePrefix
    } else {
        ValueFlag::Unknown
    }
}

/// A boolean value, or the error for any other text.
pub open spec fn bool_value(value: Seq<char>, flag: Seq<char>) -> Result<bool, Seq<char>> {
    if value == "true"@ {
        Ok(true)
    } else if value == "false"@ {
        Ok(false)
    } else {
        Err(bool_error(value, flag))
    }
}

/// The arguments after `--flag=value`, or the error it gives.
pub open spec fn with_value_flag(m: ArgsView, flag: Seq<char>, value: Seq<char>) -> Result<ArgsView, Seq<char>> {
    match value_flag(flag) {
        ValueFlag::InlineStyleTags => match bool_value(value, flag) {
            Ok(b) => Ok(ArgsView { inline_style_tags: b, ..m }),
            Err(e) => Err(e),
        },
        ValueFlag::LoadRemoteStylesheets => match bool_value(value, flag) {
            Ok(b) => Ok(ArgsView { load_remote_stylesheets: b, ..m }),
            Err(e) => Err(e),
        },
        ValueFlag::BaseUrl => Ok(ArgsView { base_url: Some(value), ..m }),
        ValueFlag::ExtraCss => Ok(ArgsView { extra_css: Some(value), ..m }),
        ValueFlag::ExtraCssFile => Ok(ArgsView { extra_css_files: m.extra_css_files.push(value), ..m }),
        ValueFlag::OutputFilenamePrefix => Ok(ArgsView { output_filename_prefix: Some(value), ..m }),
        ValueFlag::Unknown => Err("Unknown flag: --"@ + flag),
    }
}

/// `--flag=value`, or `--flag value` for a flag that takes a value. Nothing changes on an
/// error.
pub fn handle_flag_with_value(parsed: &mut ParsedArgs, flag: &str, value: &str) -> (r: Result<(), String>)
    ensures
        match (r, with_value_flag(old(parsed)@, flag@, value@)) {
            (Ok(()), Ok(m)) => final(parsed)@ == m,
            (Err(e), Err(f)) => e@ == f && final(parsed)@ == old(parsed)@,
            _ => false,
        },
{
    let f = flag.to_string();
    if string_is(&f, "inline-style-tags") {
        match parse_bool_value(value, flag) {
            Ok(b) => {
                parsed.inline_style_tags = b;
            },
            Err(m) => {
                return Err(m);
            },
        }
    } else if string_is(&f, "load-remote-stylesheets") {
        match parse_bool_value(value, flag) {
            Ok(b) => {
                parsed.load_remote_stylesheets = b;
            },
            Err(m) => {
                return Err(m);
            },
        }
    } else if string_is(&f, "base-url") {
        parsed.base_url = Some(value.to_string());
    } else if string_is(&f, "extra-css") {
        parsed.extra_css = Some(value.to_string());
    } else if string_is(&f, "extra-css-file") {
        let ghost before = parsed.extra_css_files@;
        parsed.extra_css_files.push(value.to_string());
        assert(strings_view(parsed.extra_css_files@) =~= strings_view(before).push(value@));
    } else if string_is(&f, "output-filename-prefix") {
        parsed.output_filename_prefix = Some(value.to_string());
    } else {
        let mut m = String::new();
        push_str(&mut m, "Unknown flag: --");
        push_str(&mut m, flag);
        return Err(m);
    }
    Ok(())
}

/// What a flag given without a value sets.
pub enum BoolFlag {
    Help,
    Version,
    KeepStyleTags,
    KeepLinkTags,
    KeepAtRules,
    MinifyCss,
    Unknown,
}

/// The flag that `--name` or `-n` names.
pub open spec fn bool_flag(flag: Seq<char>) -> BoolFlag {
    if flag == "help"@ || flag == "h"@ {
        BoolFlag::Help
    } else if flag == "version"@ || flag == "v"@ {
        BoolFlag::Version
    } else if flag == "keep-style-tags"@ {
        BoolFlag::KeepStyleTags
    } else if flag == "keep-link-tags"@ {
        BoolFlag::KeepLinkTags
    } else if flag == "keep-at-rules"@ {
        BoolFlag::KeepAtRules
    } else if flag == "minify-css"@ {
        BoolFlag::MinifyCss
    } else {
        BoolFlag::Unknown
    }
}

/// The arguments after a flag without a value, or the error it gives.
pub open spec fn with_bool_flag(m: ArgsView, flag: Seq<char>) -> Result<ArgsView, Seq<char>> {
    match bool_flag(flag) {
        BoolFlag::Help => Ok(ArgsView { help: true, ..m }),
        BoolFlag::Version => Ok(ArgsView { version: true, ..m }),
        BoolFlag::KeepStyleTags => Ok(ArgsView { keep_style_tags: true, ..m }),
        BoolFlag::KeepLinkTags => Ok(ArgsView { keep_link_tags: true, ..m }),
        BoolFlag::KeepAtRules => Ok(ArgsView { keep_at_rules: true, ..m }),
        BoolFlag::MinifyCss => Ok(ArgsView { minify_css: true, ..m }),
        BoolFlag::Unknown => Err("Unknown flag: "@ + flag),
    }
}

/// A flag without a value: it switches one option on. Nothing changes on an error.
pub fn handle_boolean_flag(parsed: &mut ParsedArgs, flag: &str) -> (r: Result<(), String>)
    ensures
        match (r, with_bool_flag(old(parsed)@, flag@)) {
            (Ok(()), Ok(m)) => final(parsed)@ == m,
            (Err(e), Err(f)) => e@ == f && final(parsed)@ == old(parsed)@,
            _ => false,
        },
{
    let f = flag.to_string();
    if string_is(&f, "help") || string_is(&f, "h") {
        parsed.help = true;
    } else if string_is(&f, "version") || string_is(&f, "v") {
        parsed.version = true;
    } else if string_is(&f, "keep-style-tags") {
        parsed.keep_style_tags = true;
    } else if string_is(&f, "keep-link-tags") {
        parsed.keep_link_tags = true;
    } else if string_is(&f, "keep-at-rules") {
        parsed.keep_at_rules = true;
    } else if string_is(&f, "minify-css") {
        parsed.minify_css = true;
    } else {
        let mut m = String::new();
        push_str(&mut m, "Unknown flag: ");
        push_str(&mut m, flag);
        return Err(m);
    }
    Ok(())
}

/// The buffer after one more piece: the piece, then a newline unless the buffer is still empty.
pub open spec fn with_piece(buffer: Seq<char>, piece: Seq<char>) -> Seq<char> {
    if (buffer + piece).len() > 0 {
        (buffer + piece).push('\n')
    } else {
        buffer + piece
    }
}

/// The extra CSS, then the contents of each extra CSS file, each followed by a newline; an
/// empty extra CSS adds nothing.
pub open spec fn combined_css(extra: Seq<char>, contents: Seq<Seq<char>>) -> Seq<char>
    decreases contents.len(),
{
    if contents.len() == 0 {
        if extra.len() > 0 {
            extra.push('\n')
        } else {
            extra
        }
    } else {
        with_piece(combined_css(extra, contents.drop_last()), contents.last())
    }
}

/// Joins the extra CSS given on the command line and the contents of the extra CSS files;
/// `None` when all of it is empty.
pub fn combine_extra_css(extra_css: Option<String>, contents: &Vec<String>) -> (r: Option<String>)
    ensures
        ({
            let whole = combined_css(
                match extra_css {
                    Some(e) => e@,
                    None => seq![],
                },
                contents@.map_values(|c: String| c@),
            );
            match r {
                Some(s) => s@ == whole && whole.len() > 0,
                None => whole.len() == 0,
            }
        }),
{
    let ghost extra = match &extra_css {
        Some(e) => e@,
        None => Seq::<char>::empty(),
    };
    let ghost cv = contents@.map_values(|c: String| c@);
    let mut buffer = match extra_css {
        Some(e) => e,
        None => String::new(),
    };
    if buffer.as_str().unicode_len() > 0 {
        crate::text::string_push(&mut buffer, '\n');
    }
    assert(buffer@ == combined_css(extra, cv.subrange(0, 0)));
    let mut i: usize = 0;
    while i < contents.len()
        invariant
            i <= contents.len(),
            cv == contents@.map_values(|c: String| c@),
            buffer@ == combined_css(extra, cv.subrange(0, i as int)),
        decreases contents.len() - i,
    {
        proof {
            let cur = cv.subrange(0, i + 1);
            assert(cur.drop_last() =~= cv.subrange(0, i as int));
            assert(cur.last() == contents@[i as int]@);
        }
        push_str(&mut buffer, contents[i].as_str());
        if buffer.as_str().unicode_len() > 0 {
            crate::text::string_push(&mut buffer, '\n');
        }
        i += 1;
    }
    assert(cv.subrange(0, contents.len() as int) =~= cv);
    if buffer.as_str().unicode_len() == 0 {
        None
    } else {
        Some(buffer)
    }
}

/// A string made of the characters `v[lo..hi]`.
fn chars_string(v: &Vec<char>, lo: usize, hi: usize) -> (r: String)
    requires
        lo <= hi <= v.len(),
    ensures
        r@ == v@.subrange(lo as int, hi as int),
{
    crate::text::range_string(v, lo, hi)
}

/// The index of the first `=` in `s`, if there is one.
pub open spec fn first_eq(s: Seq<char>) -> Option<int>
    decreases s.len(),
{
    if s.len() == 0 {
        None
    } else if s[0] == '=' {
        Some(0)
    } else {
        match first_eq(s.drop_first()) {
            Some(k) => Some(k + 1),
            None => None,
        }
    }
}

/// The message for a flag that takes a value and was given none.
pub open spec fn missing_value_error(flag: Seq<char>) -> Seq<char> {
    "Error parsing arguments: Flag --"@ + flag + " requires a value"@
}

/// A short flag is one byte long, that is one ASCII character.
pub open spec fn is_short_flag(flag: Seq<char>) -> bool {
    flag.len() == 1 && (flag[0] as u32) < 128
}

/// The arguments after reading `args[i..]` on top of `m`, or the first error.
pub open spec fn parsed_from(args: Seq<Seq<char>>, i: int, m: ArgsView) -> Result<ArgsView, Seq<char>>
    decreases args.len() - i,
{
    if i < 0 || i >= args.len() {
        Ok(m)
    } else {
        let arg = args[i];
        if arg.len() >= 2 && arg[0] == '-' && arg[1] == '-' {
            let body = arg.subrange(2, arg.len() as int);
            match first_eq(body) {
                Some(k) => match with_value_flag(m, body.subrange(0, k), body.subrange(k + 1, body.len() as int)) {
                    Ok(m2) => parsed_from(args, i + 1, m2),
                    Err(e) => Err(e),
                },
                None => if takes_value(body) {
                    if i + 1 < args.len() {
                        match with_value_flag(m, body, args[i + 1]) {
                            Ok(m2) => parsed_from(args, i + 2, m2),
                            Err(e) => Err(e),
                        }
                    } else {
                        Err(missing_value_error(body))
                    }
                } else {
                    match with_bool_flag(m, body) {
                        Ok(m2) => parsed_from(args, i + 1, m2),
                        Err(e) => Err(e),
                    }
                },
            }
        } else if arg.len() >= 1 && arg[0] == '-' {
            let flag = arg.subrange(1, arg.len() as int);
            if is_short_flag(flag) {
                match with_bool_flag(m, flag) {
                    Ok(m2) => parsed_from(args, i + 1, m2),
                    Err(e) => Err(e),
                }
            } else {
                Err("Error parsing arguments: Invalid flag: -"@ + flag)
            }
        } else {
            parsed_from(args, i + 1, ArgsView { files: m.files.push(arg), ..m })
        }
    }
}

/// The index of the first `=` at or after `from`, or the length.
fn find_eq(arg: &Vec<char>, from: usize) -> (r: usize)
    requires
        from <= arg.len(),
    ensures
        from <= r <= arg.len(),
        match first_eq(arg@.subrange(from as int, arg.len() as int)) {
            Some(k) => r == from + k && r < arg.len(),
            None => r == arg.len(),
        },
    decreases arg.len() - from,
{
    if from == arg.len() {
        assert(arg@.subrange(from as int, arg.len() as int).len() == 0);
        from
    } else if arg[from] == '=' {
        from
    } else {
        let r = find_eq(arg, from + 1);
        assert(arg@.subrange(from as int, arg.len() as int).drop_first() =~= arg@.subrange(
            from + 1,
            arg.len() as int,
        ));
        r
    }
}

/// Reads the argument `args[i]`, and the next one when it is the value of a flag; gives the
/// index of the argument after them, or the error.
fn read_arg(args: &Vec<String>, i: usize, parsed: &mut ParsedArgs) -> (r: Result<usize, String>)
    requires
        i < args.len(),
    ensures
        match r {
            Ok(j) => i < j <= args.len() && parsed_from(strings_view(args@), i as int, old(parsed)@)
                == parsed_from(strings_view(args@), j as int, final(parsed)@),
            Err(e) => parsed_from(strings_view(args@), i as int, old(parsed)@) == Err::<ArgsView, Seq<char>>(e@),
        },
{
    let ghost av = strings_view(args@);
    let arg = str_chars(args[i].as_str());
    assert(arg@ == av[i as int]);
    if arg.len() >= 2 && arg[0] == '-' && arg[1] == '-' {
        let ghost body = arg@.subrange(2, arg.len() as int);
        let eq = find_eq(&arg, 2);
        let flag = chars_string(&arg, 2, eq);
        if eq < arg.len() {
            let value = chars_string(&arg, eq + 1, arg.len());
            proof {
                let k = (eq - 2) as int;
                assert(body.subrange(0, k) =~= flag@);
                assert(body.subrange(k + 1, body.len() as int) =~= value@);
            }
            match handle_flag_with_value(parsed, flag.as_str(), value.as_str()) {
                Ok(()) => Ok(i + 1),
                Err(m) => Err(m),
            }
        } else {
            assert(body =~= flag@);
            if requires_value(flag.as_str()) {
                if i + 1 < args.len() {
                    let value = args[i + 1].clone();
                    assert(value@ == av[i + 1]);
                    match handle_flag_with_value(parsed, flag.as_str(), value.as_str()) {
                        Ok(()) => Ok(i + 2),
                        Err(m) => Err(m),
                    }
                } else {
                    let mut m = String::new();
                    push_str(&mut m, "Error parsing arguments: Flag --");
                    push_str(&mut m, flag.as_str());
                    push_str(&mut m, " requires a value");
                    Err(m)
                }
            } else {
                match handle_boolean_flag(parsed, flag.as_str()) {
                    Ok(()) => Ok(i + 1),
                    Err(m) => Err(m),
                }
            }
        }
    } else if arg.len() >= 1 && arg[0] == '-' {
        let flag = chars_string(&arg, 1, arg.len());
        if arg.len() == 2 && (arg[1] as u32) < 128 {
            match handle_boolean_flag(parsed, flag.as_str()) {
                Ok(()) => Ok(i + 1),
                Err(m) => Err(m),
            }
        } else {
            let mut m = String::new();
            push_str(&mut m, "Error parsing arguments: Invalid flag: -");
            push_str(&mut m, flag.as_str());
            Err(m)
        }
    } else {
        let ghost before = parsed.files@;
        parsed.files.push(args[i].clone());
        assert(strings_view(parsed.files@) =~= strings_view(before).push(av[i as int]));
        Ok(i + 1)
    }
}

/// Reads the command line (without the program name). An error is the message to report.
pub fn parse_args(args: &Vec<String>) -> (r: Result<ParsedArgs, String>)
    ensures
        match (r, parsed_from(strings_view(args@), 0, default_args())) {
            (Ok(p), Ok(m)) => p@ == m,
            (Err(e), Err(f)) => e@ == f,
            _ => false,
        },
{
    let ghost av = strings_view(args@);
    let mut parsed = ParsedArgs::default();
    let mut i: usize = 0;
    while i < args.len()
        invariant
            i <= args.len(),
            av == strings_view(args@),
            parsed_from(av, 0, default_args()) == parsed_from(av, i as int, parsed@),
        decreases args.len() - i,
    {
        match read_arg(args, i, &mut parsed) {
            Ok(j) => {
                i = j;
            },
            Err(m) => {
                return Err(m);
            },
        }
    }
    Ok(parsed)
}

/// The text of an error report: `Filename: ` and the file when there is one, then
/// `Status: ERROR` and `Details: ` with the error, one per line, trimmed.
pub open spec fn error_report(filename: Option<Seq<char>>, error: Seq<char>) -> Seq<char> {
    trim(
        match filename {
            Some(f) => "Filename: "@ + f + seq!['\n'],
            None => seq![],
        } + "Status: ERROR\n"@ + "Details: "@ + error + seq!['\n'],
    )
}

/// The text of an error report.
pub fn format_error(filename: Option<&str>, error: &str) -> (r: String)
    ensures
        r@ == error_report(
            match filename {
                Some(f) => Some(f@),
                None => None,
            },
            error@,
        ),
{
    let mut buffer = String::new();
    match filename {
        Some(f) => {
            push_str(&mut buffer, "Filename: ");
            push_str(&mut buffer, f);
            crate::text::string_push(&mut buffer, '\n');
        },
        None => {},
    }
    push_str(&mut buffer, "Status: ERROR\n");
    push_str(&mut buffer, "Details: ");
    push_str(&mut buffer, error);
    crate::text::string_push(&mut buffer, '\n');
    let chars = str_chars(buffer.as_str());
    let (b, e) = crate::text::trim_bounds(&chars, 0, chars.len());
    proof {
        assert(chars@.subrange(0, chars.len() as int) =~= chars@);
        assert(buffer@ =~= match filename {
            Some(f) => "Filename: "@ + f@ + seq!['\n'],
            None => Seq::<char>::empty(),
        } + "Status: ERROR\n"@ + "Details: "@ + error@ + seq!['\n']);
    }
    chars_string(&chars, b, e)
}

} // verus!
