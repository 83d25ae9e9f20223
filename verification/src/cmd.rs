use vstd::prelude::*;
use vstd::string::StringExecFns;

use crate::JpegError;

verus! {

/// The image formats the encoder reads.
#[derive(Debug, Clone, Copy, PartialEq, Eq, Structural)]
pub enum ImageFormat {
    PixMap,
}

/// The options of a run: the input format, whether to show debug
/// information, and the files of the luminance and chrominance quantization
/// tables.
pub struct CmdArgs {
    pub format: ImageFormat,
    pub debug: bool,
    pub quant: String,
    pub chroma: String,
}

impl CmdArgs {
    /// The defaults: portable pixmap, no debug output, the table `quant/one`
    /// for luminance and chrominance.
    pub fn new() -> (res: Self)
        ensures
            res.format == ImageFormat::PixMap,
            !res.debug,
            res.quant@ == "quant/one"@,
            res.chroma@ == "quant/one"@,
    {
        CmdArgs {
            format: ImageFormat::PixMap,
            debug: false,
            quant: String::from_str("quant/one"),
            chroma: String::from_str("quant/one"),
        }
    }
}

/// The bytes of a text.
pub open spec fn text_bytes(s: String) -> Seq<u8> {
    vstd::utf8::encode_utf8(s@)
}

/// A file name can be cut three bytes before its end: it is long enough and
/// the cut falls between two characters.
pub open spec fn name_fits(name: Seq<u8>) -> bool {
    name.len() >= 3 && vstd::utf8::is_char_boundary(name, name.len() - 3)
}

/// The last three bytes of the name are the extension of a portable bitmap,
/// graymap or pixmap.
pub open spec fn pixmap_extension(name: Seq<u8>) -> bool {
    let e = name.subrange(name.len() - 3, name.len() as int);
    e == seq![0x70u8, 0x62u8, 0x6Du8] || e == seq![0x70u8, 0x67u8, 0x6Du8] || e == seq![
        0x70u8,
        0x70u8,
        0x6Du8,
    ]
}

/// The bytes of a `str`.
fn str_bytes(s: &String) -> (res: &[u8])
    ensures
        res@ == text_bytes(*s),
{
    s.as_str().as_bytes()
}

/// The image format of a file, known from its last three bytes `pbm`, `pgm`
/// or `ppm`.
pub fn parse_format(name: &String) -> (res: Result<ImageFormat, JpegError>)
    requires
        name_fits(text_bytes(*name)),
    ensures
        match res {
            Ok(f) => pixmap_extension(text_bytes(*name)) && f == ImageFormat::PixMap,
            Err(e) => !pixmap_extension(text_bytes(*name)) && e == JpegError::FormatError,
        },
{
    let b = str_bytes(name);
    let n = b.len();
    let ghost e = b@.subrange(n - 3, n as int);
    assert(e[0] == b@[n - 3] && e[1] == b@[n - 2] && e[2] == b@[n - 1]);
    if b[n - 3] == 0x70 && b[n - 1] == 0x6D && (b[n - 2] == 0x62 || b[n - 2] == 0x67 || b[n - 2]
        == 0x70) {
        assert(e =~= seq![0x70u8, b@[n - 2], 0x6Du8]);
        Ok(ImageFormat::PixMap)
    } else {
        Err(JpegError::FormatError)
    }
}

/// How reading the command line ends: with a command line that cannot be
/// read at all (`Fault`: a file name shorter than its extension), an error,
/// or the chosen file and options, given by the index of the argument that
/// holds them.
pub enum ArgsOutcome {
    Fault,
    Fail(JpegError),
    Done { file: int, debug: bool, quant: Option<int>, chroma: Option<int> },
}

pub open spec fn is_opt(a: Seq<u8>, letter: u8) -> bool {
    a == seq![0x2Du8, letter]
}

/// Reading the options from argument `i` on: `-f NAME` picks the input
/// file, whose name must end in a pixmap extension; `-d` asks for debug
/// output; `-q NAME` picks the luminance quantization table and `-c NAME`
/// the chrominance one; anything else, or an option without its argument,
/// asks for help. At the end a file must have been chosen.
pub open spec fn walk_args(
    args: Seq<Seq<u8>>,
    i: nat,
    file: Option<int>,
    debug: bool,
    quant: Option<int>,
    chroma: Option<int>,
) -> ArgsOutcome
    decreases args.len() - i,
{
    if i >= args.len() {
        match file {
            Some(f) => ArgsOutcome::Done { file: f, debug, quant, chroma },
            None => ArgsOutcome::Fail(JpegError::HelpError),
        }
    } else if is_opt(args[i as int], 0x66) {
        if i + 1 < args.len() {
            let name = args[(i + 1) as int];
            if !name_fits(name) {
                ArgsOutcome::Fault
            } else if !pixmap_extension(name) {
                ArgsOutcome::Fail(JpegError::FormatError)
            } else {
                walk_args(args, i + 2, Some((i + 1) as int), debug, quant, chroma)
            }
        } else {
            ArgsOutcome::Fail(JpegError::HelpError)
        }
    } else if is_opt(args[i as int], 0x64) {
        walk_args(args, i + 1, file, true, quant, chroma)
    } else if is_opt(args[i as int], 0x71) {
        if i + 1 < args.len() {
            walk_args(args, i + 2, file, debug, Some((i + 1) as int), chroma)
        } else {
            ArgsOutcome::Fail(JpegError::HelpError)
        }
    } else if is_opt(args[i as int], 0x63) {
        if i + 1 < args.len() {
            walk_args(args, i + 2, file, debug, quant, Some((i + 1) as int))
        } else {
            ArgsOutcome::Fail(JpegError::HelpError)
        }
    } else {
        ArgsOutcome::Fail(JpegError::HelpError)
    }
}

/// How reading the whole command line ends; the first argument is the
/// program and without it the user is asked for help.
pub open spec fn args_outcome(args: Seq<String>) -> ArgsOutcome {
    if args.len() == 0 {
        ArgsOutcome::Fail(JpegError::HelpError)
    } else {
        walk_args(args.map_values(|a: String| text_bytes(a)), 1, None, false, None, None)
    }
}

/// What [`parse_args`] gives on a command line that does not stop the program.
pub open spec fn args_result(args: Seq<String>, res: Result<(String, CmdArgs), JpegError>) -> bool {
    match args_outcome(args) {
        ArgsOutcome::Fault => false,
        ArgsOutcome::Fail(e) => res == Err::<(String, CmdArgs), JpegError>(e),
        ArgsOutcome::Done { file, debug, quant, chroma } => match res {
            Ok((f, c)) => {
                &&& f@ == args[file]@
                &&& c.format == ImageFormat::PixMap
                &&& c.debug == debug
                &&& c.quant@ == match quant {
                    Some(q) => args[q]@,
                    None => "quant/one"@,
                }
                &&& c.chroma@ == match chroma {
                    Some(q) => args[q]@,
                    None => c.quant@,
                }
            },
            Err(_) => false,
        },
    }
}

fn is_option(a: &String, letter: u8) -> (res: bool)
    ensures
        res == is_opt(text_bytes(*a), letter),
{
    let b = str_bytes(a);
    let r = b.len() == 2 && b[0] == 0x2D && b[1] == letter;
    assert(r ==> b@ =~= seq![0x2Du8, letter]);
    r
}

/// Reads the command line; `None` where the name after `-f` is too short
/// to be cut before its extension.
fn walk(args: &Vec<String>) -> (res: Option<Result<(String, CmdArgs), JpegError>>)
    ensures
        match res {
            None => args_outcome(args@) is Fault,
            Some(r) => args_result(args@, r),
        },
{
    if args.len() == 0 {
        return Some(Err(JpegError::HelpError));
    }
    let ghost bytes = args@.map_values(|a: String| text_bytes(a));
    let mut cmd_res = CmdArgs::new();
    let mut file: Option<String> = None;
    let ghost mut file_idx: Option<int> = None;
    let ghost mut quant_idx: Option<int> = None;
    let ghost mut chroma_idx: Option<int> = None;
    let mut chroma: Option<String> = None;
    let mut i: usize = 1;
    while i < args.len()
        invariant
            1 <= i <= args@.len(),
            bytes == args@.map_values(|a: String| text_bytes(a)),
            args_outcome(args@) == walk_args(
                bytes,
                i as nat,
                file_idx,
                cmd_res.debug,
                quant_idx,
                chroma_idx,
            ),
            cmd_res.format == ImageFormat::PixMap,
            file is Some <==> file_idx is Some,
            file_idx matches Some(k) ==> 0 <= k < args@.len() && file.unwrap()@ == args@[k]@,
            quant_idx matches Some(k) ==> 0 <= k < args@.len() && cmd_res.quant@ == args@[k]@,
            quant_idx is None ==> cmd_res.quant@ == "quant/one"@,
            chroma is Some <==> chroma_idx is Some,
            chroma_idx matches Some(k) ==> 0 <= k < args@.len() && chroma.unwrap()@ == args@[k]@,
        decreases args@.len() - i,
    {
        let cmd = &args[i];
        assert(bytes[i as int] == text_bytes(*cmd));
        if is_option(cmd, 0x66) {
            if i + 1 < args.len() {
                let path = &args[i + 1];
                assert(bytes[i + 1] == text_bytes(*path));
                let b = str_bytes(path);
                if b.len() < 3 {
                    return None;
                }
                if !path.as_str().is_char_boundary(b.len() - 3) {
                    return None;
                }
                match parse_format(path) {
                    Ok(f) => {
                        cmd_res.format = f;
                    },
                    Err(e) => {
                        return Some(Err(e));
                    },
                }
                file = Some(path.clone());
                proof {
                    file_idx = Some(i + 1);
                }
                i = i + 2;
            } else {
                return Some(Err(JpegError::HelpError));
            }
        } else if is_option(cmd, 0x64) {
            cmd_res.debug = true;
            i = i + 1;
        } else if is_option(cmd, 0x71) {
            if i + 1 < args.len() {
                cmd_res.quant = args[i + 1].clone();
                proof {
                    quant_idx = Some(i + 1);
                }
                i = i + 2;
            } else {
                return Some(Err(JpegError::HelpError));
            }
        } else if is_option(cmd, 0x63) {
            if i + 1 < args.len() {
                chroma = Some(args[i + 1].clone());
                proof {
                    chroma_idx = Some(i + 1);
                }
                i = i + 2;
            } else {
                return Some(Err(JpegError::HelpError));
            }
        } else {
            return Some(Err(JpegError::HelpError));
        }
    }
    cmd_res.chroma = match chroma {
        Some(c) => c,
        None => cmd_res.quant.clone(),
    };
    match file {
        Some(f) => Some(Ok((f, cmd_res))),
        None => Some(Err(JpegError::HelpError)),
    }
}


/// The command line does not stop the program: every name read after `-f`
/// can be cut three bytes before its end.
pub open spec fn args_fit(args: Seq<String>) -> bool {
    !(args_outcome(args) is Fault)
}

/// Reads the command line: `-f NAME` the input file (a portable bitmap,
/// graymap or pixmap, known from its extension), `-d` debug output, `-q NAME`
/// the luminance quantization table, `-c NAME` the chrominance one (by
/// default the luminance one). Anything else, a missing argument or a missing
/// input file asks for help; a wrong extension is a format error.
pub fn parse_args(args: &Vec<String>) -> (res: Result<(String, CmdArgs), JpegError>)
    requires
        args_fit(args@),
    ensures
        args_result(args@, res),
{
    match walk(args) {
        Some(r) => r,
        None => {
            assert(false);
            Err(JpegError::HelpError)
        },
    }
}

/// Whether [`parse_args`] can read this command line.
pub fn check_args(args: &Vec<String>) -> (res: bool)
    ensures
        res == args_fit(args@),
{
    match walk(args) {
        Some(_) => true,
        None => false,
    }
}
} // verus!
