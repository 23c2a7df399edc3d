//! Paths, as texts with `/` between their parts.
use vstd::prelude::*;
use vstd::string::*;
use crate::text;

verus! {

/// The path of a child of a directory.
pub open spec fn child_path(dir: Seq<char>, name: Seq<char>) -> Seq<char> {
    if dir.len() == 0 || dir.last() == '/' {
        dir + name
    } else {
        dir + "/"@ + name
    }
}

/// The path of a child of a directory.
pub fn join_path(dir: &str, name: &str) -> (r: String)
    ensures
        r@ == child_path(dir@, name@),
{
    let v: Vec<char> = text::chars_of(dir);
    let mut out: String = dir.to_owned();
    if v.len() > 0 && v[v.len() - 1] != '/' {
        out.append("/");
    }
    out.append(name);
    out
}

} // verus!
