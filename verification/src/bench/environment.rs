//! What the machine actually is, read from the machine.
//!
//! Every field is probed rather than configured, because the failure this guards
//! against is a benchmark that reports last month's hardware. A host reads the
//! machine; what its answers mean is decided here.

use vstd::prelude::*;
use vstd::string::*;

use crate::lines::{
    after_colon, find_line, first_with, lines_of, second_word, setting, take_second_word, trim,
    trimmed, unquote_back, unquote_front, value_after_colon, without_prefix,
};
use crate::text::{
    characters, decimal, parse_number, parsed_number, push_decimal, push_plain_hex, plain_hex,
    text_of,
};

verus! {

/// What kind of filesystem a path is on.
///
/// The distinction that matters is exactly one: does a sync there do anything.
/// Everything else is detail.
#[derive(Debug, PartialEq, Eq)]
pub enum Filesystem {
    /// A real filesystem on a real device.
    Durable(String),
    /// Memory wearing a filesystem's clothes. A sync returns immediately and a
    /// power cut takes everything, so a number measured here is a number about
    /// memcpy.
    Memory(String),
    /// The probe could not tell. Treated as unpublishable, because "I do not
    /// know whether this sync did anything" is not a footnote a headline number
    /// can carry.
    Unknown,
}

impl Clone for Filesystem {
    fn clone(&self) -> (r: Self)
        ensures
            r == *self,
    {
        match self {
            Filesystem::Durable(name) => Filesystem::Durable(name.clone()),
            Filesystem::Memory(name) => Filesystem::Memory(name.clone()),
            Filesystem::Unknown => Filesystem::Unknown,
        }
    }
}

impl Filesystem {
    /// What the filesystem is called.
    pub open spec fn called(self) -> Seq<char> {
        match self {
            Filesystem::Durable(name) => name@,
            Filesystem::Memory(name) => name@,
            Filesystem::Unknown => "unknown"@,
        }
    }

    pub fn name(&self) -> (r: &str)
        ensures
            r@ == self.called(),
    {
        match self {
            Filesystem::Durable(name) => name.as_str(),
            Filesystem::Memory(name) => name.as_str(),
            Filesystem::Unknown => "unknown",
        }
    }

    pub fn is_memory(&self) -> (r: bool)
        ensures
            r == (self is Memory),
    {
        matches!(self, Filesystem::Memory(_))
    }
}

/// The host a run happened on.
#[derive(Debug, PartialEq, Eq)]
pub struct Environment {
    pub cpu: String,
    pub cores: usize,
    pub memory_gib: u64,
    pub os: String,
    pub kernel: String,
    pub arch: String,
    pub filesystem: Filesystem,
    /// Where the run's data directory was, so the filesystem above is
    /// attributable to something.
    pub data_dir: String,
    /// The commit this measured, and whether the tree it ran from matched it.
    ///
    /// A number that cannot name the code it measured is not reproducible, and a
    /// number taken from a modified tree names a commit that is not what ran.
    pub commit: String,
    pub tree_modified: bool,
    /// When, in UTC.
    pub date: String,
}

impl Clone for Environment {
    fn clone(&self) -> (r: Self)
        ensures
            r == *self,
    {
        Environment {
            cpu: self.cpu.clone(),
            cores: self.cores,
            memory_gib: self.memory_gib,
            os: self.os.clone(),
            kernel: self.kernel.clone(),
            arch: self.arch.clone(),
            filesystem: self.filesystem.clone(),
            data_dir: self.data_dir.clone(),
            commit: self.commit.clone(),
            tree_modified: self.tree_modified,
            date: self.date.clone(),
        }
    }
}

/// What is said of a tree that does not match its commit.
pub open spec fn modified_note(modified: bool) -> Seq<char> {
    if modified {
        " (working tree modified)"@
    } else {
        ""@
    }
}

impl Environment {
    /// Whether the hardware and the filesystem were described.
    pub open spec fn described(self) -> bool {
        &&& self.cpu@.len() > 0
        &&& self.cores > 0
        &&& self.memory_gib > 0
        &&& self.os@.len() > 0
        &&& self.arch@.len() > 0
        &&& !(self.filesystem is Unknown)
    }

    /// An environment nobody described.
    ///
    /// Exists so that "we did not probe the host" is representable and therefore
    /// refusable, rather than being papered over with empty strings that print
    /// as a valid-looking header.
    pub fn unknown() -> (r: Self)
        ensures
            r.cpu@.len() == 0,
            r.cores == 0,
            r.memory_gib == 0,
            r.os@.len() == 0,
            r.kernel@.len() == 0,
            r.arch@.len() == 0,
            r.filesystem is Unknown,
            r.data_dir@.len() == 0,
            r.commit@.len() == 0,
            !r.tree_modified,
            r.date@.len() == 0,
    {
        Environment {
            cpu: String::new(),
            cores: 0,
            memory_gib: 0,
            os: String::new(),
            kernel: String::new(),
            arch: String::new(),
            filesystem: Filesystem::Unknown,
            data_dir: String::new(),
            commit: String::new(),
            tree_modified: false,
            date: String::new(),
        }
    }

    pub fn is_stated(&self) -> (r: bool)
        ensures
            r == self.described(),
    {
        !self.cpu.as_str().is_empty() && self.cores > 0 && self.memory_gib > 0
            && !self.os.as_str().is_empty() && !self.arch.as_str().is_empty() && !matches!(
            self.filesystem,
            Filesystem::Unknown
        )
    }

    /// The header line a result file carries.
    pub open spec fn header_text(self) -> Seq<char> {
        "host:   "@
            + self.cpu@
            + ", "@
            + decimal(self.cores as nat)
            + " cores, "@
            + decimal(self.memory_gib as nat)
            + " GiB, "@
            + self.os@
            + ", kernel "@
            + self.kernel@
            + ", "@
            + self.arch@
            + "\ncommit: "@
            + self.commit@
            + modified_note(self.tree_modified)
            + "\ndate:   "@
            + self.date@
            + "\ndata:   "@
            + self.data_dir@
            + " on "@
            + self.filesystem.called()
    }

    /// The header line a result file carries.
    pub fn render(&self) -> (r: String)
        ensures
            r@ == self.header_text(),
    {
        let modified = if self.tree_modified {
            " (working tree modified)"
        } else {
            ""
        };
        let mut out = String::new();
        out.append("host:   ");
        out.append(self.cpu.as_str());
        out.append(", ");
        push_decimal(&mut out, self.cores as u64);
        out.append(" cores, ");
        push_decimal(&mut out, self.memory_gib);
        out.append(" GiB, ");
        out.append(self.os.as_str());
        out.append(", kernel ");
        out.append(self.kernel.as_str());
        out.append(", ");
        out.append(self.arch.as_str());
        out.append("\ncommit: ");
        out.append(self.commit.as_str());
        out.append(modified);
        out.append("\ndate:   ");
        out.append(self.date.as_str());
        out.append("\ndata:   ");
        out.append(self.data_dir.as_str());
        out.append(" on ");
        out.append(self.filesystem.name());
        proof {
            assert(out@ =~= self.header_text());
        }
        out
    }
}

// ------------------------------------------------------------- what was read

/// Whether the tree a measurement ran from is not its commit: where either
/// difference could not be ruled out, or something in it is not tracked.
pub fn tree_is_modified(staged_clean: bool, unstaged_clean: bool, untracked: &str) -> (r: bool)
    ensures
        r == (!staged_clean || !unstaged_clean || trimmed(untracked@).len() > 0),
{
    let chars = characters(untracked);
    !staged_clean || !unstaged_clean || trim(chars.as_slice()).len() > 0
}

/// The model in what `/proc/cpuinfo` holds.
pub open spec fn model_in(info: Seq<char>) -> Option<Seq<char>> {
    match first_with(lines_of(info), "model name"@) {
        Some(line) => match after_colon(line) {
            Some(value) => Some(trimmed(value)),
            None => None,
        },
        None => None,
    }
}

/// The model in what `/proc/cpuinfo` holds.
pub fn cpu_model(info: &str) -> (r: Option<String>)
    ensures
        match r {
            Some(model) => model_in(info@) == Some(model@),
            None => model_in(info@) is None,
        },
{
    match find_line(info, "model name") {
        Some(line) => match value_after_colon(line.as_slice()) {
            Some(value) => Some(text_of(trim(value))),
            None => None,
        },
        None => None,
    }
}

/// The memory in what `/proc/meminfo` holds, in whole GiB.
pub open spec fn memory_in(info: Seq<char>) -> Option<u64> {
    match first_with(lines_of(info), "MemTotal"@) {
        Some(line) => match second_word(line) {
            Some(word) => match parsed_number(word) {
                Some(kib) => Some((kib / 1024 / 1024) as u64),
                None => None,
            },
            None => None,
        },
        None => None,
    }
}

/// The memory in what `/proc/meminfo` holds, in whole GiB.
pub fn memory_gib(info: &str) -> (r: Option<u64>)
    ensures
        r == memory_in(info@),
{
    match find_line(info, "MemTotal") {
        Some(line) => match take_second_word(line.as_slice()) {
            Some(word) => match parse_number(word) {
                Some(kib) => Some(kib / 1024 / 1024),
                None => None,
            },
            None => None,
        },
        None => None,
    }
}

/// The system's name in what `/etc/os-release` holds.
pub open spec fn system_in(release: Seq<char>) -> Option<Seq<char>> {
    match first_with(lines_of(release), "PRETTY_NAME="@) {
        Some(line) => Some(
            unquote_back(unquote_front(without_prefix(line, "PRETTY_NAME="@))),
        ),
        None => None,
    }
}

/// The system's name in what `/etc/os-release` holds.
pub fn os_name(release: &str) -> (r: Option<String>)
    ensures
        match r {
            Some(name) => system_in(release@) == Some(name@),
            None => system_in(release@) is None,
        },
{
    match find_line(release, "PRETTY_NAME=") {
        Some(line) => {
            let name = characters("PRETTY_NAME=");
            proof {
                reveal_strlit("PRETTY_NAME=");
            }
            Some(text_of(setting(line.as_slice(), name.as_slice()).as_slice()))
        },
        None => None,
    }
}

// ------------------------------------------------------------- filesystems

/// What the operating system says of the filesystem under a path.
#[derive(Debug)]
pub enum Reported {
    /// Its name.
    Name(String),
    /// Its number, as `statfs` gives it.
    Number(u64),
}

/// What a filesystem is called by its number. Only the in-memory ones need
/// naming precisely; everything else is reported by number, which is still
/// enough for a reader to look up and is honest about not knowing.
pub open spec fn name_of_number(number: u64) -> Seq<char> {
    if number == 0x0100_1021 || number == 0x0102_1994 {
        "tmpfs"@
    } else if number == 0x8584_58f6 {
        "ramfs"@
    } else if number == 0xef53 {
        "ext4"@
    } else if number == 0x5846_5342 {
        "xfs"@
    } else if number == 0x9123_683e {
        "btrfs"@
    } else if number == 0x6969 {
        "nfs"@
    } else {
        "fstype-0x"@ + plain_hex(number as nat)
    }
}

fn number_name(number: u64) -> (r: String)
    ensures
        r@ == name_of_number(number),
{
    if number == 0x0100_1021 || number == 0x0102_1994 {
        "tmpfs".to_owned()
    } else if number == 0x8584_58f6 {
        "ramfs".to_owned()
    } else if number == 0xef53 {
        "ext4".to_owned()
    } else if number == 0x5846_5342 {
        "xfs".to_owned()
    } else if number == 0x9123_683e {
        "btrfs".to_owned()
    } else if number == 0x6969 {
        "nfs".to_owned()
    } else {
        let mut r = String::new();
        r.append("fstype-0x");
        push_plain_hex(&mut r, number);
        r
    }
}

/// A character in lower case, where it is an ASCII letter.
pub open spec fn lowered(c: char) -> char {
    if 'A' <= c && c <= 'Z' {
        (c as u32 + 32) as char
    } else {
        c
    }
}

/// Whether two texts are the same but for the case of ASCII letters.
pub open spec fn same_but_case(a: Seq<char>, b: Seq<char>) -> bool {
    &&& a.len() == b.len()
    &&& forall|i: int| 0 <= i < a.len() ==> lowered(#[trigger] a[i]) == lowered(b[i])
}

fn lower(c: char) -> (r: char)
    ensures
        r == lowered(c),
{
    if 'A' <= c && c <= 'Z' {
        let b: u8 = c as u8;
        (b + 32) as char
    } else {
        c
    }
}

fn equal_but_case(a: &[char], b: &[char]) -> (r: bool)
    ensures
        r == same_but_case(a@, b@),
{
    if a.len() != b.len() {
        return false;
    }
    let mut i: usize = 0;
    while i < a.len()
        invariant
            i <= a@.len() == b@.len(),
            forall|j: int| 0 <= j < i ==> lowered(#[trigger] a@[j]) == lowered(b@[j]),
        decreases a@.len() - i,
    {
        if lower(a[i]) != lower(b[i]) {
            return false;
        }
        i += 1;
    }
    true
}

/// Whether a filesystem of this name is memory. The list is short and explicit:
/// memory filesystems are few and well known.
pub open spec fn named_memory(name: Seq<char>) -> bool {
    ||| same_but_case(name, "tmpfs"@)
    ||| same_but_case(name, "ramfs"@)
    ||| same_but_case(name, "devtmpfs"@)
    ||| same_but_case(name, "hugetlbfs"@)
}

fn is_named_memory(name: &str) -> (r: bool)
    ensures
        r == named_memory(name@),
{
    let chars = characters(name);
    equal_but_case(chars.as_slice(), characters("tmpfs").as_slice()) || equal_but_case(
        chars.as_slice(),
        characters("ramfs").as_slice(),
    ) || equal_but_case(chars.as_slice(), characters("devtmpfs").as_slice()) || equal_but_case(
        chars.as_slice(),
        characters("hugetlbfs").as_slice(),
    )
}

/// Which filesystem a path is on, by what the operating system reports of it,
/// and whether a sync there means anything.
///
/// A path it reports nothing of is on an unknown one. A filesystem nobody
/// recognised is `Durable`, because the alternative, refusing anything
/// unfamiliar, makes the bar unusable on the next distribution and gets it
/// turned off.
pub fn filesystem_at(reported: Option<Reported>) -> (r: Filesystem)
    ensures
        ({
            let name = match reported {
                Some(Reported::Name(name)) => name@,
                Some(Reported::Number(number)) => name_of_number(number),
                None => Seq::empty(),
            };
            match r {
                Filesystem::Unknown => reported is None,
                Filesystem::Memory(n) => reported is Some && n@ == name && named_memory(name),
                Filesystem::Durable(n) => reported is Some && n@ == name && !named_memory(name),
            }
        }),
{
    let name = match reported {
        Some(Reported::Name(name)) => name,
        Some(Reported::Number(number)) => number_name(number),
        None => {
            return Filesystem::Unknown;
        },
    };
    if is_named_memory(name.as_str()) {
        Filesystem::Memory(name)
    } else {
        Filesystem::Durable(name)
    }
}

} // verus!
