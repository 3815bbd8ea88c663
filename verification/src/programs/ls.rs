//! `ls`: lists the names in a directory, leaving out hidden ones unless
//! asked for all.
use vstd::prelude::*;
use crate::args::Args;
use crate::dirent::{decode_names, dirent_names};

verus! {

/// Rust's `core::str::from_utf8` accepts exactly the byte strings that are
/// valid UTF-8; this asks it whether `b` is one.
#[verifier::external_body]
fn is_utf8(b: &[u8]) -> (r: bool)
    ensures
        r == vstd::utf8::valid_utf8(b@),
{
    core::str::from_utf8(b).is_ok()
}

/// How a name is shown: as it is when it is text, as `?` otherwise.
pub open spec fn shown_name(b: Seq<u8>) -> Seq<u8> {
    if vstd::utf8::valid_utf8(b) {
        b
    } else {
        seq![63u8]
    }
}

/// A name starting with `.` is hidden.
pub open spec fn is_hidden(b: Seq<u8>) -> bool {
    b.len() > 0 && b[0] == 46u8
}

/// The listing of `names`: each shown name that is not hidden (or every
/// one, with `show_all`) followed by two spaces.
pub open spec fn listing_text(names: Seq<Seq<u8>>, show_all: bool) -> Seq<u8>
    decreases names.len(),
{
    if names.len() == 0 {
        Seq::empty()
    } else {
        let s = shown_name(names.last());
        listing_text(names.drop_last(), show_all) + if show_all || !is_hidden(s) {
            s + seq![32u8, 32u8]
        } else {
            Seq::empty()
        }
    }
}

/// What `ls` prints for the records in `buf[..n]`: the listing and a
/// newline, or nothing when the records cannot be read.
pub fn ls_output(buf: &[u8], n: usize, show_all: bool) -> (r: Option<Vec<u8>>)
    ensures
        match decode_names(buf@, 0, n as int) {
            Some(names) => r matches Some(out) && out@ == listing_text(names, show_all).push(10u8),
            None => r is None,
        },
{
    let names = match dirent_names(buf, n) {
        Some(names) => names,
        None => {
            return None;
        },
    };
    let ghost all = crate::dirent::byte_strings(names@);
    let mut out: Vec<u8> = Vec::new();
    let mut i: usize = 0;
    while i < names.len()
        invariant
            i <= names@.len(),
            all == crate::dirent::byte_strings(names@),
            out@ == listing_text(all.take(i as int), show_all),
        decreases names.len() - i,
    {
        assert(all.take(i + 1).drop_last() =~= all.take(i as int));
        let name: &Vec<u8> = &names[i];
        let valid = is_utf8(name.as_slice());
        let ghost shown = shown_name(all[i as int]);
        if valid {
            let hidden = name.len() > 0 && name[0] == 46u8;
            if show_all || !hidden {
                let mut k: usize = 0;
                let ghost head = out@;
                while k < name.len()
                    invariant
                        k <= name@.len(),
                        out@ == head + name@.take(k as int),
                    decreases name.len() - k,
                {
                    out.push(name[k]);
                    assert(name@.take(k + 1) =~= name@.take(k as int).push(name@[k as int]));
                    k = k + 1;
                }
                assert(name@.take(name@.len() as int) =~= name@);
                out.push(32u8);
                out.push(32u8);
                assert(out@ =~= head + (shown + seq![32u8, 32u8]));
            }
        } else {
            let ghost head = out@;
            out.push(63u8);
            out.push(32u8);
            out.push(32u8);
            assert(out@ =~= head + (shown + seq![32u8, 32u8]));
        }
        i = i + 1;
    }
    assert(all.take(all.len() as int) =~= all);
    out.push(10u8);
    Some(out)
}

/// What `ls` was asked for.
pub struct LsRequest {
    pub help: bool,
    pub show_all: bool,
    pub path: String,
}

/// Reads `ls`'s options: `-h`/`--help`, `-a`/`--all`, and the directory
/// (the first positional argument, `/` by default).
pub fn ls_request(args: &Args) -> (r: LsRequest)
    ensures
        r.help == (args@.flags.contains("h"@) || args@.flags.contains("help"@)),
        r.show_all == (args@.flags.contains("a"@) || args@.flags.contains("all"@)),
        r.path@ == if args@.positionals.len() > 0 { args@.positionals[0] } else { "/"@ },
{
    let help = args.flag("h") || args.flag("help");
    let show_all = args.flag("a") || args.flag("all");
    let path = args.positional(0, "/");
    LsRequest { help, show_all, path }
}

/// What `ls` shows of one more name: a name that is not UTF-8 text is
/// shown as `?`; a text name is left out without `-a` exactly when its
/// first byte is `.`, and otherwise shown as it is. What is shown is
/// followed by two spaces and comes after what the earlier names showed.
pub proof fn law_listing_shows(names: Seq<Seq<u8>>, name: Seq<u8>)
    ensures
        name.len() > 0 && name[0] == 46u8 && vstd::utf8::valid_utf8(name)
            ==> listing_text(names.push(name), false) == listing_text(names, false),
        !vstd::utf8::valid_utf8(name) ==> listing_text(names.push(name), false) == listing_text(names, false) + seq![63u8, 32u8, 32u8],
        !(name.len() > 0 && name[0] == 46u8) && vstd::utf8::valid_utf8(name)
            ==> listing_text(names.push(name), false) == listing_text(names, false) + name + seq![32u8, 32u8],
        vstd::utf8::valid_utf8(name) ==> listing_text(names.push(name), true) == listing_text(names, true) + name + seq![32u8, 32u8],
        !vstd::utf8::valid_utf8(name) ==> listing_text(names.push(name), true) == listing_text(names, true) + seq![63u8, 32u8, 32u8],
{
    let all = names.push(name);
    assert(all.drop_last() =~= names);
    assert(all.last() == name);
    if !vstd::utf8::valid_utf8(name) {
        assert(seq![63u8] + seq![32u8, 32u8] =~= seq![63u8, 32u8, 32u8]);
        assert(!is_hidden(seq![63u8]));
        assert(listing_text(names, false) + seq![63u8, 32u8, 32u8] =~= listing_text(names, false) + (seq![63u8] + seq![32u8, 32u8]));
        assert(listing_text(names, true) + seq![63u8, 32u8, 32u8] =~= listing_text(names, true) + (seq![63u8] + seq![32u8, 32u8]));
    } else {
        assert(listing_text(names, false) + name + seq![32u8, 32u8] =~= listing_text(names, false) + (name + seq![32u8, 32u8]));
        assert(listing_text(names, true) + name + seq![32u8, 32u8] =~= listing_text(names, true) + (name + seq![32u8, 32u8]));
    }
    if name.len() > 0 && name[0] == 46u8 && vstd::utf8::valid_utf8(name) {
        assert(is_hidden(shown_name(name)));
        assert(listing_text(names, false) + Seq::<u8>::empty() =~= listing_text(names, false));
    }
}

} // verus!
