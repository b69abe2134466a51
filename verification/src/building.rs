//! Deciding which dictionaries are compiled, and from what.

use vstd::prelude::*;
use crate::compiler;
use crate::compiler::{write_binary_dict, CompiledDict, DictSource};
use crate::index;
use crate::json;
use crate::source;
use crate::source::{process_json_file, process_yaml};
use crate::strmap::StrMap;
use crate::text;
use crate::text::{chars_of, same_text, starts_with, string_of};
use crate::trie;
use crate::trie::{check_header, Entry};

verus! {

/// A second in nanoseconds.
pub const SECOND_NS: i128 = 1000000000;

/// A file below a directory of sources.
pub struct SourceFile {
    pub extension: String,
    /// When it was last changed, in nanoseconds since the epoch.
    pub mtime: Option<i128>,
}

/// A dictionary that was compiled before.
pub struct Target {
    /// The head of its data, where it could be read.
    pub head: Option<Vec<u8>>,
    /// When it was last changed, in nanoseconds since the epoch.
    pub mtime: i128,
}

/// Whether a file is one that a dictionary may be compiled from.
pub open spec fn is_source(f: SourceFile) -> bool {
    f.extension@ == "json"@ || f.extension@ == "yaml"@
}

/// When the newest of the first `n` sources was changed, the epoch at the earliest.
pub open spec fn newest(files: Seq<SourceFile>, n: int) -> i128
    decreases n,
{
    if n <= 0 {
        0
    } else {
        let before = newest(files, n - 1);
        match files[n - 1].mtime {
            Some(t) if is_source(files[n - 1]) && t > before => t,
            _ => before,
        }
    }
}

/// Whether a dictionary has to be compiled: it is missing, its head is not that of this version,
/// or its directory is newer and a source was changed a second or more after it.
pub open spec fn outdated(
    target: Option<(Option<Seq<u8>>, i128)>,
    dir_mtime: Option<i128>,
    files: Seq<SourceFile>,
) -> bool {
    match target {
        None => true,
        Some((head, built)) => {
            ||| head matches Some(h) && trie::header_error(h) is Some
            ||| (dir_mtime matches Some(d) ==> d > built) && newest(files, files.len() as int)
                - built >= SECOND_NS
        },
    }
}

impl View for Target {
    type V = (Option<Seq<u8>>, i128);

    open spec fn view(&self) -> (Option<Seq<u8>>, i128) {
        (
            match self.head {
                Some(h) => Some(h@),
                None => None,
            },
            self.mtime,
        )
    }
}

/// Whether a dictionary has to be compiled again.
pub fn should_compile(
    target: &Option<Target>,
    dir_mtime: Option<i128>,
    files: &Vec<SourceFile>,
) -> (r: bool)
    ensures
        r == outdated(
            match *target {
                Some(t) => Some(t@),
                None => None,
            },
            dir_mtime,
            files@,
        ),
{
    let t = match target {
        None => {
            return true;
        },
        Some(t) => t,
    };
    if let Some(h) = &t.head {
        if check_header(h.as_slice()).is_some() {
            return true;
        }
    }
    if let Some(d) = dir_mtime {
        if d <= t.mtime {
            return false;
        }
    }
    let mut latest: i128 = 0;
    let mut i: usize = 0;
    while i < files.len()
        invariant
            i <= files.len(),
            latest == newest(files@, i as int),
        decreases files.len() - i,
    {
        let f = &files[i];
        if same_text(f.extension.as_str(), "json") || same_text(f.extension.as_str(), "yaml") {
            if let Some(m) = f.mtime {
                if m > latest {
                    latest = m;
                }
            }
        }
        i = i + 1;
    }
    if t.mtime > latest {
        return false;
    }
    match latest.checked_sub(t.mtime) {
        Some(d) => d >= SECOND_NS,
        None => true,
    }
}

/// Whether a text occurs in another.
pub open spec fn occurs(s: Seq<char>, part: Seq<char>) -> bool {
    exists|i: int| 0 <= i <= s.len() && text::begins(#[trigger] s.skip(i), part)
}

/// Whether a text occurs in another.
fn holds_text(s: &str, part: &str) -> (r: bool)
    ensures
        r == occurs(s@, part@),
{
    let c = chars_of(s);
    let mut i: usize = 0;
    while i < c.len()
        invariant
            i <= c.len(),
            c@ == s@,
            forall|k: int| 0 <= k < i ==> !text::begins(#[trigger] s@.skip(k), part@),
        decreases c.len() - i,
    {
        let rest = string_of(vstd::slice::slice_subrange(c.as_slice(), i, c.len()));
        proof {
            assert(rest@ =~= s@.skip(i as int));
        }
        if starts_with(rest.as_str(), part) {
            return true;
        }
        i = i + 1;
    }
    let none = String::new();
    proof {
        assert(none@ =~= s@.skip(s@.len() as int));
    }
    starts_with(none.as_str(), part)
}

/// What a dictionary is compiled from and where to.
pub struct Plan {
    pub source: String,
    pub output: String,
    pub is_english: bool,
    pub key_field: Option<String>,
}

/// What a dictionary is compiled from and where to, as values.
#[verifier::ext_equal]
pub struct Planned {
    pub source: Seq<char>,
    pub output: Seq<char>,
    pub is_english: bool,
    pub key_field: Option<Seq<char>>,
}

impl View for Plan {
    type V = Planned;

    open spec fn view(&self) -> Planned {
        Planned {
            source: self.source@,
            output: self.output@,
            is_english: self.is_english,
            key_field: match self.key_field {
                Some(k) => Some(k@),
                None => None,
            },
        }
    }
}

/// The plan for a directory of dictionaries. Strokes are read off the characters of Chinese.
pub open spec fn planned(dir: Seq<char>) -> Planned {
    if dir == "stroke"@ {
        Planned {
            source: "dicts/chinese/chars"@,
            output: "data/stroke"@,
            is_english: false,
            key_field: Some("stroke_aux"@),
        }
    } else {
        Planned {
            source: "dicts/"@ + dir,
            output: "data/"@ + dir,
            is_english: occurs(dir, "english"@),
            key_field: None,
        }
    }
}

/// The plan for a directory of dictionaries.
pub fn plan_for(dir: &str) -> (r: Plan)
    ensures
        r@ == planned(dir@),
{
    if same_text(dir, "stroke") {
        Plan {
            source: "dicts/chinese/chars".to_owned(),
            output: "data/stroke".to_owned(),
            is_english: false,
            key_field: Some("stroke_aux".to_owned()),
        }
    } else {
        let mut source = "dicts/".to_owned();
        source.append(dir);
        let mut output = "data/".to_owned();
        output.append(dir);
        Plan { source, output, is_english: holds_text(dir, "english"), key_field: None }
    }
}

/// How a file of a directory is read.
#[derive(PartialEq, Eq, Structural, Clone, Copy, Debug)]
pub enum Reading {
    Table,
    List,
    Skip,
}

/// How a file of a directory is read: tables but that of the punctuation, and lists.
pub open spec fn reading(name: Seq<char>, extension: Seq<char>) -> Reading {
    if extension == "json"@ {
        if name == "punctuation.json"@ {
            Reading::Skip
        } else {
            Reading::Table
        }
    } else if extension == "yaml"@ {
        Reading::List
    } else {
        Reading::Skip
    }
}

/// How a file of a directory is read.
pub fn reading_of(name: &str, extension: &str) -> (r: Reading)
    ensures
        r == reading(name@, extension@),
{
    if same_text(extension, "json") {
        if same_text(name, "punctuation.json") {
            Reading::Skip
        } else {
            Reading::Table
        }
    } else if same_text(extension, "yaml") {
        Reading::List
    } else {
        Reading::Skip
    }
}

/// The contents of a source.
pub enum Material {
    /// The bytes of a JSON table.
    Table(Vec<u8>),
    /// The lines of a tab-separated list.
    List(Vec<String>),
}

/// Why a dictionary cannot be compiled.
#[derive(Debug, PartialEq, Eq, Structural, Clone, Copy)]
pub enum CompileError {
    /// A table holds no JSON value.
    Malformed,
    /// A key stands twice.
    KeyTwice,
}

/// The dictionary in the making after the first `n` sources were read, unless a table among
/// them holds no JSON value.
pub open spec fn gathered(
    m: Seq<Material>,
    n: int,
    is_english: bool,
    field: Option<Seq<char>>,
) -> Option<Seq<(Seq<char>, Seq<Entry>)>>
    decreases n,
{
    if n <= 0 {
        Some(Seq::empty())
    } else {
        match gathered(m, n - 1, is_english, field) {
            None => None,
            Some(before) => match m[n - 1] {
                Material::Table(b) => match json::tree_in(b@) {
                    Some(t) => Some(source::tree_added(before, t, is_english, field)),
                    None => None,
                },
                Material::List(lines) => Some(
                    source::lines_added(before, text::texts(lines@), lines@.len() as int).1,
                ),
            },
        }
    }
}

proof fn lemma_gathered_none(m: Seq<Material>, i: int, n: int, is_english: bool, field: Option<Seq<char>>)
    requires
        0 <= i <= n,
        gathered(m, i, is_english, field) is None,
    ensures
        gathered(m, n, is_english, field) is None,
    decreases n,
{
    if i < n {
        lemma_gathered_none(m, i, n - 1, is_english, field);
    }
}

/// Compiles a dictionary from its sources, in their order.
pub fn compile_dict_for_path(
    materials: &Vec<Material>,
    is_english: bool,
    key_field: Option<&str>,
) -> (r: Result<CompiledDict, CompileError>)
    ensures
        match gathered(
            materials@,
            materials@.len() as int,
            is_english,
            trie::opt_text(key_field),
        ) {
            None => r is Err && r->Err_0 == CompileError::Malformed,
            Some(g) => {
                let d = compiler::by_key(g);
                if index::rising(compiler::offsets(d)) {
                    r matches Ok(c) && c.data@ == compiler::data_bytes(d) && index::fst_whole(c.index@)
                        && index::fst_entries(c.index@) == index::map_of(compiler::offsets(d))
                } else {
                    r is Err && r->Err_0 == CompileError::KeyTwice
                }
            },
        },
{
    let mut d: DictSource = StrMap::new();
    let ghost field = trie::opt_text(key_field);
    let mut i: usize = 0;
    while i < materials.len()
        invariant
            i <= materials.len(),
            field == trie::opt_text(key_field),
            gathered(materials@, i as int, is_english, field) == Some(d@),
        decreases materials.len() - i,
    {
        match &materials[i] {
            Material::Table(b) => {
                if !process_json_file(&mut d, b.as_slice(), is_english, key_field) {
                    proof {
                        lemma_gathered_none(
                            materials@,
                            i + 1,
                            materials@.len() as int,
                            is_english,
                            field,
                        );
                    }
                    return Err(CompileError::Malformed);
                }
            },
            Material::List(lines) => process_yaml(&mut d, lines),
        }
        i = i + 1;
    }
    match write_binary_dict(d) {
        Some(c) => Ok(c),
        None => Err(CompileError::KeyTwice),
    }
}

} // verus!
