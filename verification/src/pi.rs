//! Where `pi`, and `dsh` after it, file the sessions of a directory.

use vstd::prelude::*;
use crate::text::chars_of;

verus! {

/// What stands in a bucket's name for the character `c` of a path.
pub open spec fn bucket_char(c: char) -> char {
    if c == '/' || c == '\\' || c == ':' {
        '-'
    } else {
        c
    }
}

/// `cwd` without the separator that it may start with.
pub open spec fn below_root(cwd: Seq<char>) -> Seq<char> {
    if cwd.len() > 0 && (cwd.first() == '/' || cwd.first() == '\\') {
        cwd.drop_first()
    } else {
        cwd
    }
}

/// The name of the bucket for `cwd`.
pub open spec fn bucket_name(cwd: Seq<char>) -> Seq<char> {
    "--"@ + below_root(cwd).map_values(|c: char| bucket_char(c)) + "--"@
}

/// The name of the bucket that holds the sessions of `cwd`: its path with hyphens for
/// separators, between two pairs of hyphens.
pub fn encoded_dir(cwd: &str) -> (name: String)
    ensures
        name@ == bucket_name(cwd@),
{
    let chars = chars_of(cwd);
    let from: usize = if chars.len() > 0 && (chars[0] == '/' || chars[0] == '\\') {
        1
    } else {
        0
    };
    let ghost body = below_root(cwd@).map_values(|c: char| bucket_char(c));
    let mut name = "--".to_owned();
    let mut i: usize = from;
    assert(name@ == "--"@ + body.take(0));
    while i < chars.len()
        invariant
            from <= i <= chars.len(),
            from <= 1,
            below_root(cwd@) == chars@.skip(from as int),
            body == below_root(cwd@).map_values(|c: char| bucket_char(c)),
            name@ == "--"@ + body.take(i - from),
        decreases chars.len() - i,
    {
        let c = chars[i];
        assert(body.take(i + 1 - from) == body.take(i - from).push(bucket_char(c)));
        name.push(if c == '/' || c == '\\' || c == ':' {
            '-'
        } else {
            c
        });
        i += 1;
    }
    assert(body.take(i - from) == body);
    name.append("--");
    name
}

/// A bucket's name has two hyphens at each end. Between them it has the path character for
/// character, without the separator that it may start with, and with hyphens for the others and
/// for colons.
pub proof fn lemma_bucket_name(cwd: Seq<char>)
    ensures
        ({
            let name = bucket_name(cwd);
            let from: int = if cwd.len() > 0 && (cwd[0] == '/' || cwd[0] == '\\') {
                1
            } else {
                0
            };
            &&& name.len() == cwd.len() - from + 4
            &&& name[0] == '-' && name[1] == '-'
            &&& name[name.len() - 2] == '-' && name[name.len() - 1] == '-'
            &&& forall|i: int|
                from <= i < cwd.len() ==> name[2 + i - from] == if #[trigger] cwd[i] == '/'
                    || cwd[i] == '\\' || cwd[i] == ':' {
                    '-'
                } else {
                    cwd[i]
                }
        }),
{
    reveal_strlit("--");
    let name = bucket_name(cwd);
    let body = below_root(cwd);
    let from: int = if cwd.len() > 0 && (cwd[0] == '/' || cwd[0] == '\\') {
        1
    } else {
        0
    };
    assert(body == cwd.skip(from));
    assert forall|i: int| from <= i < cwd.len() implies name[2 + i - from] == if #[trigger] cwd[i]
        == '/' || cwd[i] == '\\' || cwd[i] == ':' {
        '-'
    } else {
        cwd[i]
    } by {
        assert(body[i - from] == cwd[i]);
        assert(name[2 + i - from] == bucket_char(body[i - from]));
    }
}

} // verus!
