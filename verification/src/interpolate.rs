//! Variable interpolation for commands: `{user}` and `{ip}` placeholder
//! expansion from an SSH host string, and small command-string builders.

use vstd::prelude::*;

use crate::text::{find_char_from, first_index_of, str_concat, str_to_string};

verus! {

/// Left-to-right, non-overlapping replacement of `pat` by `repl`: at a
/// match emit `repl` and continue after it, otherwise keep one character.
/// An empty pattern leaves the string unchanged.
pub open spec fn spec_replace(s: Seq<char>, pat: Seq<char>, repl: Seq<char>) -> Seq<char>
    decreases s.len(),
{
    if pat.len() == 0 || s.len() == 0 {
        s
    } else if s.len() >= pat.len() && s.take(pat.len() as int) == pat {
        repl + spec_replace(s.skip(pat.len() as int), pat, repl)
    } else {
        seq![s[0]] + spec_replace(s.skip(1), pat, repl)
    }
}

/// Splitting a host string at its first `@` into user and address.
pub open spec fn spec_parse_host(host: Seq<char>) -> Option<(Seq<char>, Seq<char>)> {
    let i = first_index_of(host, '@', 0);
    if i == host.len() {
        None
    } else {
        Some((host.take(i), host.skip(i + 1)))
    }
}

/// Whether `pat` occurs in `s` starting at position `i`.
#[verifier::loop_isolation(false)]
fn match_at(s: &str, pat: &str, i: usize) -> (r: bool)
    requires
        i + pat@.len() <= s@.len(),
        i + pat@.len() <= usize::MAX,
    ensures
        r == (s@.subrange(i as int, i + pat@.len()) == pat@),
{
    let patlen = pat.unicode_len();
    let mut j: usize = 0;
    while j < patlen
        invariant
            j <= patlen,
            patlen == pat@.len(),
            forall|m: int| 0 <= m < j ==> s@[i + m] == pat@[m],
        decreases patlen - j,
    {
        if s.get_char(i + j) != pat.get_char(j) {
            proof {
                assert(s@.subrange(i as int, i + pat@.len())[j as int] != pat@[j as int]);
            }
            return false;
        }
        j += 1;
    }
    proof {
        assert(s@.subrange(i as int, i + pat@.len()) =~= pat@);
    }
    true
}

/// Replace every occurrence of `pat` in `s` by `repl`, scanning left to
/// right without overlap.
#[verifier::loop_isolation(false)]
pub fn replace_all(s: &str, pat: &str, repl: &str) -> (r: String)
    requires
        pat@.len() >= 1,
    ensures
        r@ == spec_replace(s@, pat@, repl@),
{
    let slen = s.unicode_len();
    let patlen = pat.unicode_len();
    let mut out = String::new();
    let mut i: usize = 0;
    proof {
        assert(s@.skip(0) =~= s@);
        assert(out@ + spec_replace(s@, pat@, repl@) =~= spec_replace(s@, pat@, repl@));
    }
    while i < slen
        invariant
            i <= slen,
            slen == s@.len(),
            patlen == pat@.len(),
            spec_replace(s@, pat@, repl@) == out@ + spec_replace(s@.skip(i as int), pat@, repl@),
        decreases slen - i,
    {
        let ghost t = s@.skip(i as int);
        if patlen <= slen - i && match_at(s, pat, i) {
            let ghost pre = out@;
            out.append(repl);
            proof {
                assert(t.take(patlen as int) =~= s@.subrange(i as int, i + patlen));
                assert(t.skip(patlen as int) =~= s@.skip(i + patlen));
                assert(pre + (repl@ + spec_replace(s@.skip(i + patlen), pat@, repl@)) =~= (pre
                    + repl@) + spec_replace(s@.skip(i + patlen), pat@, repl@));
            }
            i += patlen;
        } else {
            let piece = s.substring_char(i, i + 1);
            let ghost pre = out@;
            out.append(piece);
            proof {
                assert(t[0] == s@[i as int]);
                assert(piece@ =~= seq![t[0]]);
                if i + patlen <= slen {
                    assert(t.take(patlen as int) =~= s@.subrange(i as int, i + patlen));
                }
                assert(t.skip(1) =~= s@.skip(i + 1));
                assert(pre + (seq![t[0]] + spec_replace(s@.skip(i + 1), pat@, repl@)) =~= (pre
                    + piece@) + spec_replace(s@.skip(i + 1), pat@, repl@));
            }
            i += 1;
        }
    }
    proof {
        assert(s@.skip(slen as int) =~= Seq::<char>::empty());
        assert(out@ + Seq::<char>::empty() =~= out@);
    }
    out
}

/// Parse a host string in `user@ip` form into its two parts, splitting at
/// the first `@`; `None` when no `@` is present.
pub fn parse_host(host: &str) -> (r: Option<(String, String)>)
    ensures
        match r {
            Some(parts) => spec_parse_host(host@) == Some((parts.0@, parts.1@)),
            None => spec_parse_host(host@) is None,
        },
{
    let len = host.unicode_len();
    let d = find_char_from(host, '@', 0);
    if d == len {
        return None;
    }
    let user = str_to_string(host.substring_char(0, d));
    let ip = str_to_string(host.substring_char(d + 1, len));
    proof {
        assert(user@ =~= host@.take(d as int));
        assert(ip@ =~= host@.skip(d + 1));
    }
    Some((user, ip))
}

/// Replace `{user}` and `{ip}` placeholders in a command string.
pub fn interpolate(command: &str, user: &str, ip: &str) -> (r: String)
    ensures
        r@ == spec_replace(spec_replace(command@, "{user}"@, user@), "{ip}"@, ip@),
{
    proof {
        reveal_strlit("{user}");
        reveal_strlit("{ip}");
    }
    let step = replace_all(command, "{user}", user);
    replace_all(step.as_str(), "{ip}", ip)
}

/// The command that opens an SSH session to a host.
pub fn ssh_command(host: &str) -> (r: String)
    ensures
        r@ == "ssh "@ + host@,
{
    str_concat("ssh ", host)
}

} // verus!
