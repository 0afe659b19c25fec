//! What a result looks like on disk, and where it may go.
//!
//! The bar is only a bar if there is no way round it. [`result_text`] takes an
//! [`Evidence`], and `Evidence` is implemented for exactly two types:
//! [`Publishable`], which can only be obtained by passing the checks, and
//! [`Admitted`], which carries the reason it did not.
//!
//! A result has a file name, not a path: the directory is not the caller's to
//! choose.

use vstd::prelude::*;
use vstd::string::*;

use crate::bench::publishable::{Admitted, Publishable, Tier};
use crate::bench::sealed::Sealed;
use crate::log::segment::{path_in, path_of};
use crate::text::{characters, debug_text, quoted};

verus! {

/// Something that entitles a caller to write a result.
///
/// Sealed: the two implementations are the two doors, and a third would be a way
/// past both.
pub trait Evidence: Sealed {
    /// What the provenance block says.
    spec fn provenance(&self) -> Seq<char>;

    /// Whether this result may be quoted without a qualifier.
    spec fn headlined(&self) -> bool;

    /// The provenance block that goes at the top of the file.
    fn header(&self) -> (r: String)
        ensures
            r@ == self.provenance(),
    ;

    /// Whether this result may be quoted without a qualifier.
    fn may_be_headlined(&self) -> (r: bool)
        ensures
            r == self.headlined(),
    ;
}

impl Evidence for Publishable {
    open spec fn provenance(&self) -> Seq<char> {
        self@.header_text()
    }

    open spec fn headlined(&self) -> bool {
        self@.tier == Tier::Reference
    }

    fn header(&self) -> String {
        Publishable::header(self)
    }

    fn may_be_headlined(&self) -> bool {
        self.tier().may_be_headlined()
    }
}

impl Evidence for Admitted {
    open spec fn provenance(&self) -> Seq<char> {
        self@.header_text()
    }

    open spec fn headlined(&self) -> bool {
        false
    }

    fn header(&self) -> String {
        Admitted::header(self)
    }

    fn may_be_headlined(&self) -> bool {
        false
    }
}

#[derive(Debug)]
pub enum RecordError {
    /// The filesystem failed, and this is what it said.
    Io(String),
    NotAFileName(String),
}

/// What a record error says.
pub open spec fn record_error_text(e: RecordError) -> Seq<char> {
    match e {
        RecordError::Io(why) => "io: "@ + why@,
        RecordError::NotAFileName(name) => debug_text(name@) + " is not a file name. A benchmark result names a file; the directory it goes in is not the caller's to choose, because a result that can be written anywhere is a gate that can be walked around"@,
    }
}

impl RecordError {
    /// What went wrong, for a person.
    pub fn message(&self) -> (r: String)
        ensures
            r@ == record_error_text(*self),
    {
        let mut out = String::new();
        match self {
            RecordError::Io(why) => {
                out.append("io: ");
                out.append(why.as_str());
            },
            RecordError::NotAFileName(name) => {
                out.append(quoted(name.as_str()).as_str());
                out.append(" is not a file name. A benchmark result names a file; the directory it goes in is not the caller's to choose, because a result that can be written anywhere is a gate that can be walked around");
            },
        }
        proof {
            assert(out@ =~= record_error_text(*self));
        }
        out
    }
}

/// Where every benchmark result goes, below the root it is given.
pub open spec fn bench_dir() -> Seq<char> {
    "results/bench"@
}

/// Whether a name is a plain file name: no separators, no parent components, no
/// root.
pub open spec fn plain_name(name: Seq<char>) -> bool {
    &&& name.len() > 0
    &&& name != "."@
    &&& name != ".."@
    &&& !name.contains('/')
}

/// Whether a name is a plain file name: no separators, no parent components, no
/// root.
pub fn is_plain_name(name: &str) -> (r: bool)
    ensures
        r == plain_name(name@),
{
    let chars = characters(name);
    let n: usize = chars.len();
    proof {
        reveal_strlit(".");
        reveal_strlit("..");
        if n == 1 && chars@[0] == '.' {
            assert(name@ =~= "."@);
        }
        if n == 2 && chars@[0] == '.' && chars@[1] == '.' {
            assert(name@ =~= ".."@);
        }
    }
    if n == 0 || (n == 1 && chars[0] == '.') || (n == 2 && chars[0] == '.' && chars[1] == '.') {
        return false;
    }
    let mut i: usize = 0;
    while i < n
        invariant
            i <= n == chars@.len(),
            chars@ == name@,
            forall|j: int| 0 <= j < i ==> chars@[j] != '/',
        decreases n - i,
    {
        if chars[i] == '/' {
            return false;
        }
        i += 1;
    }
    true
}

/// The path a named result will be written to, under `root`.
pub fn path_for(root: &str, name: &str) -> (r: Result<String, RecordError>)
    ensures
        match r {
            Ok(path) => {
                &&& plain_name(name@)
                &&& path@ == path_of(path_of(root@, bench_dir()), name@)
            },
            Err(RecordError::NotAFileName(n)) => !plain_name(name@) && n@ == name@,
            Err(_) => false,
        },
{
    if !is_plain_name(name) {
        return Err(RecordError::NotAFileName(name.to_owned()));
    }
    Ok(path_in(path_in(root, "results/bench").as_str(), name))
}

/// What is repeated above the numbers of a result that may not be headlined. A
/// reader who skims to the table has skipped the tier line, and this is the
/// sentence that stops the number being quoted out of context.
pub open spec fn qualifier(headlined: bool) -> Seq<char> {
    if headlined {
        ""@
    } else {
        "\n** Every number below is from this host and this configuration.\n** It is reproducible, and it is not a claim about how fast Keel\n** is in general.\n"@
    }
}

/// Text that ends with a line feed.
pub open spec fn ended(body: Seq<char>) -> Seq<char> {
    if body.len() > 0 && body.last() == '\n' {
        body
    } else {
        body.push('\n')
    }
}

/// What a result file holds: the header first and the body after, so that a
/// reader sees what the number is allowed to mean before they see the number.
pub open spec fn written_result(provenance: Seq<char>, headlined: bool, body: Seq<char>) -> Seq<
    char,
> {
    provenance.push('\n') + qualifier(headlined).push('\n') + ended(body)
}

/// What a result file holds, with the evidence that entitles it.
pub fn result_text<E: Evidence>(evidence: &E, body: &str) -> (r: String)
    ensures
        r@ == written_result(evidence.provenance(), evidence.headlined(), body@),
{
    let mut out = evidence.header();
    out.push('\n');
    if !evidence.may_be_headlined() {
        out.append(
            "\n** Every number below is from this host and this configuration.\n** It is reproducible, and it is not a claim about how fast Keel\n** is in general.\n",
        );
    } else {
        out.append("");
    }
    out.push('\n');
    out.append(body);
    let n: usize = body.unicode_len();
    if n == 0 || body.get_char(n - 1) != '\n' {
        out.push('\n');
    }
    proof {
        assert(out@ =~= written_result(evidence.provenance(), evidence.headlined(), body@));
    }
    out
}

/// The first thing in a result file is its provenance, whatever the number below
/// it is.
pub proof fn law_the_header_comes_first(provenance: Seq<char>, headlined: bool, body: Seq<char>)
    ensures
        written_result(provenance, headlined, body).take(provenance.len() as int) == provenance,
        written_result(provenance, headlined, body).last() == '\n',
{
    assert(written_result(provenance, headlined, body).take(provenance.len() as int)
        =~= provenance);
}

/// A result is written in the one directory that results go to: past that
/// directory its path has no further separator, and it does not step back out.
pub proof fn law_a_result_stays_in_its_directory(root: Seq<char>, name: Seq<char>)
    requires
        plain_name(name),
    ensures
        path_of(path_of(root, bench_dir()), name) == path_of(root, bench_dir()).push('/') + name,
        forall|i: int|
            path_of(root, bench_dir()).len() < i < path_of(path_of(root, bench_dir()), name).len()
                ==> path_of(path_of(root, bench_dir()), name)[i] != '/',
        name != "."@ && name != ".."@,
{
    reveal_strlit("results/bench");
    let dir = path_of(root, bench_dir());
    assert(dir.last() == 'h');
    assert(dir + seq!['/'] + name =~= dir.push('/') + name);
    assert forall|i: int| dir.len() < i < path_of(dir, name).len() implies path_of(dir, name)[i]
        != '/' by {
        assert(name[i - dir.len() - 1] != '/');
    }
}

} // verus!
