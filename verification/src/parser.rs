use vstd::prelude::*;
use vstd::string::{StrSliceExecFns, StringExecFns};

use crate::enums::{Error, ExtType, ManifestKind};
use crate::strings::{first_dot, lemma_first_dot};

verus! {

/// What a manifest file name declares: its base name, the manifest kind,
/// and the file extension, read from the `<name>.<kind>.<ext>` pattern.
#[derive(Debug, PartialEq)]
pub struct ParserInfo {
    pub filename: String,
    pub parser: ManifestKind,
    pub ext: ExtType,
}

/// The part of a path after its last `/`: the file name.
#[verifier::opaque]
pub open spec fn after_last_slash(s: Seq<char>) -> Seq<char>
    decreases s.len(),
{
    if s.len() == 0 {
        s
    } else if s.last() == '/' {
        Seq::empty()
    } else {
        after_last_slash(s.drop_last()).push(s.last())
    }
}

/// The dot-separated segments of `s`, in order; a name without dots is one
/// segment, and consecutive dots yield empty segments.
#[verifier::opaque]
pub open spec fn segs(s: Seq<char>) -> Seq<Seq<char>>
    decreases s.len(),
{
    let fd = first_dot(s);
    if !(0 <= fd < s.len()) {
        seq![s]
    } else {
        seq![s.take(fd)] + segs(s.skip(fd + 1))
    }
}

/// Three consecutive non-empty segments stand at `x`.
#[verifier::opaque]
pub open spec fn triple_ok(ss: Seq<Seq<char>>, x: int) -> bool {
    &&& 0 <= x
    &&& x + 2 < ss.len()
    &&& ss[x].len() > 0
    &&& ss[x + 1].len() > 0
    &&& ss[x + 2].len() > 0
}

/// The first position of three consecutive non-empty segments, or `-1`
/// when there is none: where the `<name>.<kind>.<ext>` pattern first
/// matches.
#[verifier::opaque]
pub open spec fn first_triple(ss: Seq<Seq<char>>) -> int
    decreases ss.len(),
{
    if ss.len() < 3 {
        -1
    } else if ss[0].len() > 0 && ss[1].len() > 0 && ss[2].len() > 0 {
        0
    } else {
        let r = first_triple(ss.subrange(1, ss.len() as int));
        if r < 0 {
            -1
        } else {
            1 + r
        }
    }
}

/// `first_triple` names the first matching position, or `-1` when no
/// position matches.
pub proof fn lemma_first_triple(ss: Seq<Seq<char>>)
    ensures
        first_triple(ss) >= 0 ==> triple_ok(ss, first_triple(ss)) && (forall|x: int|
            0 <= x < first_triple(ss) ==> !#[trigger] triple_ok(ss, x)),
        first_triple(ss) < 0 ==> forall|x: int| !#[trigger] triple_ok(ss, x),
    decreases ss.len(),
{
    reveal(triple_ok);
    reveal_with_fuel(first_triple, 2);
    if ss.len() >= 3 && !(ss[0].len() > 0 && ss[1].len() > 0 && ss[2].len() > 0) {
        let t = ss.subrange(1, ss.len() as int);
        lemma_first_triple(t);
        assert forall|x: int| 1 <= x && x + 2 < ss.len() implies (triple_ok(ss, x) <==> triple_ok(
            t,
            x - 1,
        )) by {
            assert(ss[x] == t[x - 1]);
            assert(ss[x + 1] == t[x]);
            assert(ss[x + 2] == t[x + 1]);
        }
        if first_triple(ss) >= 0 {
            assert forall|x: int| 0 <= x < first_triple(ss) implies !#[trigger] triple_ok(
                ss,
                x,
            ) by {
                if x >= 1 {
                    assert(!triple_ok(t, x - 1));
                }
            }
        } else {
            assert forall|x: int| true implies !#[trigger] triple_ok(ss, x) by {
                if 1 <= x && x + 2 < ss.len() {
                    assert(!triple_ok(t, x - 1));
                }
            }
        }
    } else if ss.len() < 3 {
        assert forall|x: int| true implies !#[trigger] triple_ok(ss, x) by {}
    }
}

/// Splits a string at its dots.
fn split_dots(s: &str) -> (r: Vec<String>)
    ensures
        r.deep_view() =~= segs(s@),
    decreases s@.len(),
{
    let n = s.unicode_len();
    let mut i: usize = 0;
    while i < n
        invariant
            n == s@.len(),
            0 <= i <= n,
            forall|x: int| 0 <= x < i ==> s@[x] != '.',
        decreases n - i,
    {
        if s.get_char(i) == '.' {
            proof {
                reveal_with_fuel(segs, 2);
                lemma_first_dot(s@);
                assert(first_dot(s@) == i);
            }
            let head = s.substring_char(0, i);
            let tail = s.substring_char(i + 1, n);
            let mut rest = split_dots(tail);
            let ghost rv = rest.deep_view();
            let ghost pre = rest@;
            rest.insert(0, String::from_str(head));
            proof {
                assert forall|y: int| 0 <= y < rest@.len() implies rest.deep_view()[y] == (if y
                    == 0 {
                    head@
                } else {
                    rv[y - 1]
                }) by {
                    assert(rest.deep_view()[y] == rest@[y]@);
                    if y > 0 {
                        assert(rest@[y] == pre[y - 1]);
                        assert(rv[y - 1] == pre[y - 1]@);
                    }
                }
                assert(rest.deep_view() =~= segs(s@));
            }
            return rest;
        }
        i += 1;
    }
    proof {
        reveal_with_fuel(segs, 2);
        lemma_first_dot(s@);
        assert(first_dot(s@) == n);
    }
    let mut r: Vec<String> = Vec::new();
    crate::strings::push_deep(&mut r, String::from_str(s));
    proof {
        assert(r.deep_view() =~= segs(s@));
    }
    r
}

/// The file name of a path: the part after its last `/`.
fn file_name_of(s: &str) -> (r: String)
    ensures
        r@ == after_last_slash(s@),
{
    let n = s.unicode_len();
    let mut i: usize = n;
    while i > 0
        invariant
            n == s@.len(),
            0 <= i <= n,
            forall|x: int| i <= x < n ==> s@[x] != '/',
        decreases i,
    {
        if s.get_char(i - 1) == '/' {
            let tail = s.substring_char(i, n);
            proof {
                lemma_after_last_slash(s@, i as int);
            }
            return String::from_str(tail);
        }
        i -= 1;
    }
    proof {
        lemma_after_last_slash(s@, 0);
        assert(s@.subrange(0, s@.len() as int) =~= s@);
    }
    String::from_str(s)
}

/// When every character from `i` on differs from `/`, and either `i` is
/// zero or a `/` stands just before it, the file name is the suffix from
/// `i`.
proof fn lemma_after_last_slash(s: Seq<char>, i: int)
    requires
        0 <= i <= s.len(),
        forall|x: int| i <= x < s.len() ==> s[x] != '/',
        i > 0 ==> s[i - 1] == '/',
    ensures
        after_last_slash(s) == s.subrange(i, s.len() as int),
    decreases s.len(),
{
    reveal_with_fuel(after_last_slash, 2);
    if s.len() == 0 {
        assert(s.subrange(0, 0) =~= s);
    } else if s.last() == '/' {
        assert(i == s.len());
        assert(s.subrange(i, s.len() as int) =~= Seq::<char>::empty());
    } else {
        let t = s.drop_last();
        lemma_after_last_slash(t, i);
        assert(t.subrange(i, t.len() as int) =~= s.subrange(i, s.len() as int).drop_last());
        assert(after_last_slash(s) =~= s.subrange(i, s.len() as int));
    }
}

/// The outcome `ParserInfo::new` owes for a path: the first
/// `<name>.<kind>.<ext>` match in the file name decides, the kind and
/// extension names must be known, and a file name without a match is
/// malformed.
pub open spec fn parser_info_ok(fp: Seq<char>) -> bool {
    let ss = segs(after_last_slash(fp));
    let i = first_triple(ss);
    &&& i >= 0
    &&& (ss[i + 1] == "scripts"@ || ss[i + 1] == "grpc"@)
    &&& (ss[i + 2] == "yaml"@ || ss[i + 2] == "json"@)
}

/// Whether three consecutive non-empty segments stand at `x`.
fn triple_at(parts: &Vec<String>, x: usize) -> (r: bool)
    requires
        x + 2 < parts@.len(),
    ensures
        r == triple_ok(parts.deep_view(), x as int),
{
    let n = parts.len();
    proof {
        reveal(triple_ok);
        assert(parts.deep_view()[x as int] == parts@[x as int]@);
        assert(parts.deep_view()[x + 1] == parts@[x + 1]@);
        assert(parts.deep_view()[x + 2] == parts@[x + 2]@);
    }
    parts[x].as_str().unicode_len() > 0 && parts[x + 1].as_str().unicode_len() > 0 && parts[x
        + 2].as_str().unicode_len() > 0
}


/// Reads the kind and extension of the match standing at `idx` and builds
/// the outcome.
fn parse_triple(parts: &Vec<String>, idx: usize) -> (r: Result<ParserInfo, Error>)
    requires
        idx + 2 < parts@.len(),
    ensures
        r is Ok <==> ((parts.deep_view()[idx + 1] == "scripts"@ || parts.deep_view()[idx + 1]
            == "grpc"@) && (parts.deep_view()[idx + 2] == "yaml"@ || parts.deep_view()[idx + 2]
            == "json"@)),
        r matches Ok(pi) ==> {
            &&& pi.filename@ == parts.deep_view()[idx as int]
            &&& pi.parser == (if parts.deep_view()[idx + 1] == "scripts"@ {
                ManifestKind::Scripts
            } else {
                ManifestKind::Grpc
            })
            &&& pi.ext == (if parts.deep_view()[idx + 2] == "yaml"@ {
                ExtType::Yaml
            } else {
                ExtType::Json
            })
        },
        r matches Err(e) ==> e == Error::UnknownVariant,
{
    let n = parts.len();
    proof {
        assert(parts.deep_view()[idx as int] == parts@[idx as int]@);
        assert(parts.deep_view()[idx + 1] == parts@[idx + 1]@);
        assert(parts.deep_view()[idx + 2] == parts@[idx + 2]@);
    }
    let kind = match ManifestKind::parse(parts[idx + 1].as_str()) {
        Ok(k) => k,
        Err(_) => {
            return Err(Error::UnknownVariant);
        },
    };
    let ext = match ExtType::parse(parts[idx + 2].as_str()) {
        Ok(e) => e,
        Err(_) => {
            return Err(Error::UnknownVariant);
        },
    };
    Ok(ParserInfo { filename: parts[idx].clone(), parser: kind, ext })
}

impl ParserInfo {
    /// Reads a manifest file's name, kind and extension from its path:
    /// the first `<name>.<kind>.<ext>` match in the file name, where the
    /// kind is `scripts` or `grpc` and the extension `yaml` or `json`.
    #[verifier::rlimit(100)]
    #[verifier::spinoff_prover]
    pub fn new(fp: &str) -> (r: Result<ParserInfo, Error>)
        ensures
            r is Ok <==> parser_info_ok(fp@),
            r matches Ok(pi) ==> {
                let ss = segs(after_last_slash(fp@));
                let i = first_triple(ss);
                &&& pi.filename@ == ss[i]
                &&& pi.parser == (if ss[i + 1] == "scripts"@ {
                    ManifestKind::Scripts
                } else {
                    ManifestKind::Grpc
                })
                &&& pi.ext == (if ss[i + 2] == "yaml"@ {
                    ExtType::Yaml
                } else {
                    ExtType::Json
                })
            },
            r matches Err(e) ==> (e == Error::UnknownVariant || (e matches
                Error::MalformedFileName { path } && path@ == fp@)),
    {
        let name = file_name_of(fp);
        let parts = split_dots(name.as_str());
        let ghost ss = segs(after_last_slash(fp@));
        let mut idx: usize = 0;
        let mut have = false;
        if parts.len() >= 3 {
            let limit = parts.len() - 2;
            while idx < limit && !have
                invariant
                    ss == parts.deep_view(),
                    ss.len() == parts@.len(),
                    parts@.len() >= 3,
                    limit == parts@.len() - 2,
                    0 <= idx <= limit,
                    have ==> idx < limit && triple_ok(ss, idx as int),
                    forall|x2: int| 0 <= x2 < idx ==> !#[trigger] triple_ok(ss, x2),
                decreases limit - idx, (if have {
                    0int
                } else {
                    1int
                }),
            {
                if triple_at(&parts, idx) {
                    have = true;
                } else {
                    idx += 1;
                }
            }
        }
        proof {
            lemma_first_triple(ss);
        }
        if !have {
            proof {
                assert(first_triple(ss) < 0) by {
                    lemma_first_triple(ss);
                    reveal(triple_ok);
                }
            }
            return Err(Error::MalformedFileName { path: String::from_str(fp) });
        }
        proof {
            assert(first_triple(ss) == idx) by {
                lemma_first_triple(ss);
            }
        }
        parse_triple(&parts, idx)
    }
}

} // verus!
