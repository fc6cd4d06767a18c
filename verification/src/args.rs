//! Search options and the scan that builds them from command-line
//! words.
//!
//! The scan walks the words left to right.  `-name`, `-iname` and
//! `-type` each take the following word as their value and the last
//! occurrence wins.  An `-iname` pattern is lowered once here — with
//! the byte-level ASCII fold of [`lower_of`], the same fold matching
//! applies to names — so that matching never lowers the pattern
//! again.  A `-type` value other than exactly `f` or `d` leaves the
//! type constraint as it was and is reported back to the caller, who
//! owns the error stream.

use vstd::prelude::*;
use crate::glob::lower_of;
use crate::glob::lower_bytes;
use vstd::utf8::encode_utf8;

verus! {

/// The filter configuration: at most one case-sensitive name pattern,
/// at most one case-insensitive one (stored pre-lowered with the
/// byte-level ASCII fold of [`lower_of`]; bytes outside `A`..`Z` are
/// untouched), and at most one type constraint, `'f'` or `'d'`.
/// Every present constraint must hold for an entry to match.
pub struct Args {
    pub name: Option<String>,
    pub name_bytes: Option<Vec<u8>>,
    pub iname: Option<String>,
    pub iname_bytes: Option<Vec<u8>>,
    pub type_filter: Option<char>,
}

/// The mathematical shadow of [`Args`]: the same five options over
/// sequences instead of owned strings and vectors.
pub struct ArgsV {
    pub name: Option<Seq<char>>,
    pub name_bytes: Option<Seq<u8>>,
    pub iname: Option<Seq<char>>,
    pub iname_bytes: Option<Seq<u8>>,
    pub type_filter: Option<char>,
}

impl View for Args {
    type V = ArgsV;

    open spec fn view(&self) -> ArgsV {
        ArgsV {
            name: match self.name {
                Option::Some(s) => Option::Some(s@),
                Option::None => Option::None,
            },
            name_bytes: match self.name_bytes {
                Option::Some(v) => Option::Some(v@),
                Option::None => Option::None,
            },
            iname: match self.iname {
                Option::Some(s) => Option::Some(s@),
                Option::None => Option::None,
            },
            iname_bytes: match self.iname_bytes {
                Option::Some(v) => Option::Some(v@),
                Option::None => Option::None,
            },
            type_filter: self.type_filter,
        }
    }
}

/// The configuration with no constraint set on any axis.
pub open spec fn no_constraints() -> ArgsV {
    ArgsV {
        name: Option::None,
        name_bytes: Option::None,
        iname: Option::None,
        iname_bytes: Option::None,
        type_filter: Option::None,
    }
}

/// One pass of the option scan from word `i` on, carrying the options
/// built so far and the rejected `-type` values in the order they were
/// seen.  A flag standing last, with no word after it, is ignored, as
/// is any word that is not one of the three flags.
pub open spec fn spec_parse_args(
    args: Seq<String>,
    i: int,
    cur: ArgsV,
    bad: Seq<Seq<char>>,
) -> (ArgsV, Seq<Seq<char>>)
    decreases args.len() - i,
{
    if i < 0 || i >= args.len() {
        (cur, bad)
    } else if args[i]@ == "-name"@ && i + 1 < args.len() {
        spec_parse_args(
            args,
            i + 2,
            ArgsV {
                name: Option::Some(args[i + 1]@),
                name_bytes: Option::Some(encode_utf8(args[i + 1]@)),
                ..cur
            },
            bad,
        )
    } else if args[i]@ == "-iname"@ && i + 1 < args.len() {
        spec_parse_args(
            args,
            i + 2,
            ArgsV {
                iname: Option::Some(args[i + 1]@),
                iname_bytes: Option::Some(lower_of(encode_utf8(args[i + 1]@))),
                ..cur
            },
            bad,
        )
    } else if args[i]@ == "-type"@ && i + 1 < args.len() {
        if args[i + 1]@ == "f"@ {
            spec_parse_args(args, i + 2, ArgsV { type_filter: Option::Some('f'), ..cur }, bad)
        } else if args[i + 1]@ == "d"@ {
            spec_parse_args(args, i + 2, ArgsV { type_filter: Option::Some('d'), ..cur }, bad)
        } else {
            spec_parse_args(args, i + 2, cur, bad.push(args[i + 1]@))
        }
    } else {
        spec_parse_args(args, i + 1, cur, bad)
    }
}

/// Scans `args` and returns the filter configuration together with
/// the rejected `-type` values, for the caller to report.
pub fn parse_args(args: &[String]) -> (r: (Args, Vec<String>))
    ensures
        (r.0@, r.1.deep_view()) == spec_parse_args(args@, 0, no_constraints(), Seq::<Seq<char>>::empty()),
{
    let mut opts = Args {
        name: None,
        name_bytes: None,
        iname: None,
        iname_bytes: None,
        type_filter: None,
    };
    let mut bad: Vec<String> = Vec::new();
    let flag_name: String = "-name".to_owned();
    let flag_iname: String = "-iname".to_owned();
    let flag_type: String = "-type".to_owned();
    let word_file: String = "f".to_owned();
    let word_dir: String = "d".to_owned();

    proof {
        assert(bad.deep_view() =~= Seq::<Seq<char>>::empty());
        assert(opts@ == no_constraints());
    }
    let mut i: usize = 0;
    while i < args.len()
        invariant
            i <= args@.len(),
            flag_name@ == "-name"@,
            flag_iname@ == "-iname"@,
            flag_type@ == "-type"@,
            word_file@ == "f"@,
            word_dir@ == "d"@,
            spec_parse_args(args@, i as int, opts@, bad.deep_view())
                == spec_parse_args(args@, 0, no_constraints(), Seq::<Seq<char>>::empty()),
        decreases args@.len() - i,
    {
        let ghost prev_i = i as int;
        let ghost prev_opts = opts@;
        let ghost prev_bad = bad.deep_view();
        if args[i] == flag_name && i + 1 < args.len() {
            let pattern = args[i + 1].clone();
            opts.name_bytes = Some(pattern.as_str().as_bytes_vec());
            opts.name = Some(pattern);
            i = i + 2;
            proof {
                assert(opts@ == (ArgsV {
                    name: Option::Some(args@[prev_i + 1]@),
                    name_bytes: Option::Some(encode_utf8(args@[prev_i + 1]@)),
                    ..prev_opts
                }));
                assert(spec_parse_args(args@, prev_i, prev_opts, prev_bad)
                    == spec_parse_args(args@, i as int, opts@, bad.deep_view()));
            }
        } else if args[i] == flag_iname && i + 1 < args.len() {
            let pattern = args[i + 1].clone();
            opts.iname_bytes = Some(lower_bytes(pattern.as_str().as_bytes_vec().as_slice()));
            opts.iname = Some(pattern);
            i = i + 2;
            proof {
                assert(opts@ == (ArgsV {
                    iname: Option::Some(args@[prev_i + 1]@),
                    iname_bytes: Option::Some(lower_of(encode_utf8(args@[prev_i + 1]@))),
                    ..prev_opts
                }));
                assert(spec_parse_args(args@, prev_i, prev_opts, prev_bad)
                    == spec_parse_args(args@, i as int, opts@, bad.deep_view()));
            }
        } else if args[i] == flag_type && i + 1 < args.len() {
            let value = args[i + 1].clone();
            if value == word_file {
                opts.type_filter = Some('f');
            } else if value == word_dir {
                opts.type_filter = Some('d');
            } else {
                bad.push(value);
                proof {
                    assert(bad.deep_view() =~= prev_bad.push(args@[prev_i + 1]@));
                }
            }
            i = i + 2;
            proof {
                assert(spec_parse_args(args@, prev_i, prev_opts, prev_bad)
                    == spec_parse_args(args@, i as int, opts@, bad.deep_view()));
            }
        } else {
            i = i + 1;
            proof {
                assert(spec_parse_args(args@, prev_i, prev_opts, prev_bad)
                    == spec_parse_args(args@, i as int, opts@, bad.deep_view()));
            }
        }
    }
    (opts, bad)
}

} // verus!
