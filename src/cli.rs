//! The command line: `-h`, `-H <header>`, `-X <method>`, `-d <data>`, `-i` and the URL.
use vstd::prelude::*;
use vstd::slice::slice_to_vec;
use crate::request::{chosen_method, effective_method, post};

verus! {

pub const DASH: u8 = 45;

/// `h`: show the usage text.
pub const LETTER_HELP: u8 = 104;

/// `i`: include the response headers in the output.
pub const LETTER_INCLUDE: u8 = 105;

/// `H`: add a header line.
pub const LETTER_HEADER: u8 = 72;

/// `X`: set the method.
pub const LETTER_METHOD: u8 = 88;

/// `d`: set the body.
pub const LETTER_DATA: u8 = 100;

/// An option that takes a value.
#[derive(Clone, Copy, Debug, PartialEq, Eq, Structural)]
pub enum ValueFlag {
    /// `-H`
    Header,
    /// `-X`
    Method,
    /// `-d`
    Data,
}

/// Why the command line was refused.
#[derive(Clone, Copy, Debug, PartialEq, Eq, Structural)]
pub enum ArgError {
    /// The option is the last argument, with no value after it.
    MissingValue(ValueFlag),
    /// The argument at this position starts with `-` and is no known option.
    UnknownOption(usize),
    /// No URL was given.
    MissingUrl,
}

/// A request as the command line describes it.
pub struct CliRequest {
    pub method: Vec<u8>,
    pub url: Vec<u8>,
    pub headers: Vec<Vec<u8>>,
    pub body: Vec<u8>,
    pub include_headers: bool,
}

/// What the command line asks for.
pub enum CliCommand {
    /// Show the usage text and do nothing else.
    Help,
    Fetch(CliRequest),
}

/// The options seen so far while scanning the arguments.
pub ghost struct ArgState {
    pub help: bool,
    pub headers: Seq<Seq<u8>>,
    pub method: Option<Seq<u8>>,
    pub data: Seq<u8>,
    pub include_headers: bool,
    pub url: Seq<u8>,
}

pub open spec fn initial_state() -> ArgState {
    ArgState {
        help: false,
        headers: Seq::empty(),
        method: None,
        data: Seq::empty(),
        include_headers: false,
        url: Seq::empty(),
    }
}

/// The argument is `-` followed by the letter `c`.
pub open spec fn is_option(a: Seq<u8>, c: u8) -> bool {
    a == seq![DASH, c]
}

/// Scans the arguments from position `i` on, from state `st`. A later `-X`,
/// `-d` or URL replaces an earlier one; `-H` adds to the headers.
pub open spec fn scan_args(args: Seq<Seq<u8>>, i: int, st: ArgState) -> Result<ArgState, ArgError>
    decreases args.len() - i,
{
    if i < 0 || i >= args.len() {
        Ok(st)
    } else {
        let a = args[i];
        let has_value = i + 1 < args.len();
        if is_option(a, LETTER_HELP) {
            scan_args(args, i + 1, ArgState { help: true, ..st })
        } else if is_option(a, LETTER_INCLUDE) {
            scan_args(args, i + 1, ArgState { include_headers: true, ..st })
        } else if is_option(a, LETTER_HEADER) {
            if has_value {
                scan_args(args, i + 2, ArgState { headers: st.headers.push(args[i + 1]), ..st })
            } else {
                Err(ArgError::MissingValue(ValueFlag::Header))
            }
        } else if is_option(a, LETTER_METHOD) {
            if has_value {
                scan_args(args, i + 2, ArgState { method: Some(args[i + 1]), ..st })
            } else {
                Err(ArgError::MissingValue(ValueFlag::Method))
            }
        } else if is_option(a, LETTER_DATA) {
            if has_value {
                scan_args(args, i + 2, ArgState { data: args[i + 1], ..st })
            } else {
                Err(ArgError::MissingValue(ValueFlag::Data))
            }
        } else if a.len() > 0 && a[0] == DASH {
            Err(ArgError::UnknownOption(i as usize))
        } else {
            scan_args(args, i + 1, ArgState { url: a, ..st })
        }
    }
}

fn option_letter(a: &[u8]) -> (r: Option<u8>)
    ensures
        match r {
            Some(c) => is_option(a@, c),
            None => forall|c: u8| !is_option(a@, c),
        },
{
    if a.len() == 2 && a[0] == DASH {
        assert(a@ =~= seq![DASH, a@[1]]);
        Some(a[1])
    } else {
        None
    }
}

/// Reads the arguments that follow the program name.
pub fn parse_args(args: &Vec<Vec<u8>>) -> (r: Result<CliCommand, ArgError>)
    ensures
        match scan_args(args.deep_view(), 0, initial_state()) {
            Err(e) => r == Err::<CliCommand, ArgError>(e),
            Ok(st) => if st.help {
                r matches Ok(CliCommand::Help)
            } else if st.url.len() == 0 {
                r == Err::<CliCommand, ArgError>(ArgError::MissingUrl)
            } else {
                &&& r matches Ok(CliCommand::Fetch(q))
                &&& q.method@ == chosen_method(st.method, st.data)
                &&& q.url@ == st.url
                &&& q.headers.deep_view() == st.headers
                &&& q.body@ == st.data
                &&& q.include_headers == st.include_headers
            },
        },
{
    let ghost all = args.deep_view();
    let mut help = false;
    let mut include_headers = false;
    let mut headers: Vec<Vec<u8>> = Vec::new();
    let mut method: Option<Vec<u8>> = None;
    let mut data: Vec<u8> = Vec::new();
    let mut url: Vec<u8> = Vec::new();
    let mut i: usize = 0;
    assert(headers.deep_view() =~= Seq::<Seq<u8>>::empty());
    assert(data@ =~= Seq::<u8>::empty());
    assert(url@ =~= Seq::<u8>::empty());
    while i < args.len()
        invariant
            i <= args@.len(),
            all == args.deep_view(),
            scan_args(all, 0, initial_state()) == scan_args(
                all,
                i as int,
                ArgState {
                    help,
                    headers: headers.deep_view(),
                    method: method.deep_view(),
                    data: data@,
                    include_headers,
                    url: url@,
                },
            ),
        decreases args@.len() - i,
    {
        let a = args[i].as_slice();
        assert(a@ =~= all[i as int]);
        let has_value = i + 1 < args.len();
        assert(has_value ==> args@[i + 1]@ =~= all[i + 1]);
        match option_letter(a) {
            Some(c) if c == LETTER_HELP => {
                help = true;
                i = i + 1;
            },
            Some(c) if c == LETTER_INCLUDE => {
                include_headers = true;
                i = i + 1;
            },
            Some(c) if c == LETTER_HEADER => {
                if !has_value {
                    return Err(ArgError::MissingValue(ValueFlag::Header));
                }
                let ghost before = headers.deep_view();
                let h = slice_to_vec(args[i + 1].as_slice());
                assert(h.deep_view() =~= h@);
                headers.push(h);
                assert(headers.deep_view() =~= before.push(all[i + 1]));
                i = i + 2;
            },
            Some(c) if c == LETTER_METHOD => {
                if !has_value {
                    return Err(ArgError::MissingValue(ValueFlag::Method));
                }
                let m = slice_to_vec(args[i + 1].as_slice());
                assert(m.deep_view() =~= m@);
                method = Some(m);
                i = i + 2;
            },
            Some(c) if c == LETTER_DATA => {
                if !has_value {
                    return Err(ArgError::MissingValue(ValueFlag::Data));
                }
                data = slice_to_vec(args[i + 1].as_slice());
                assert(data@ =~= all[i + 1]);
                i = i + 2;
            },
            _ => {
                if a.len() > 0 && a[0] == DASH {
                    return Err(ArgError::UnknownOption(i));
                }
                url = slice_to_vec(a);
                i = i + 1;
            },
        }
    }
    if help {
        return Ok(CliCommand::Help);
    }
    if url.len() == 0 {
        return Err(ArgError::MissingUrl);
    }
    let method = effective_method(method, data.as_slice());
    Ok(CliCommand::Fetch(CliRequest { method, url, headers, body: data, include_headers }))
}

proof fn lemma_scan_without_method(args: Seq<Seq<u8>>, i: int, st: ArgState)
    requires
        forall|k: int| 0 <= k < args.len() ==> !is_option(#[trigger] args[k], LETTER_METHOD),
        st.method is None,
    ensures
        scan_args(args, i, st) matches Ok(end) ==> end.method is None,
    decreases args.len() - i,
{
    if 0 <= i < args.len() {
        let a = args[i];
        assert(!is_option(a, LETTER_METHOD));
        if is_option(a, LETTER_HELP) {
            lemma_scan_without_method(args, i + 1, ArgState { help: true, ..st });
        } else if is_option(a, LETTER_INCLUDE) {
            lemma_scan_without_method(args, i + 1, ArgState { include_headers: true, ..st });
        } else if is_option(a, LETTER_HEADER) {
            if i + 1 < args.len() {
                lemma_scan_without_method(args, i + 2, ArgState { headers: st.headers.push(args[i + 1]), ..st });
            }
        } else if is_option(a, LETTER_DATA) {
            if i + 1 < args.len() {
                lemma_scan_without_method(args, i + 2, ArgState { data: args[i + 1], ..st });
            }
        } else if !(a.len() > 0 && a[0] == DASH) {
            lemma_scan_without_method(args, i + 1, ArgState { url: a, ..st });
        }
    }
}

/// A command line with no `-X` and a non-empty `-d` value asks for `POST`.
pub proof fn lemma_cli_method_default(args: Seq<Seq<u8>>)
    requires
        forall|k: int| 0 <= k < args.len() ==> !is_option(#[trigger] args[k], LETTER_METHOD),
    ensures
        scan_args(args, 0, initial_state()) matches Ok(st) ==> (st.method is None && (st.data.len() > 0
            ==> chosen_method(st.method, st.data) == post())),
{
    lemma_scan_without_method(args, 0, initial_state());
}

} // verus!
