//! File metadata records and the extension-derived file type.

use vstd::prelude::*;
use vstd::string::*;

verus! {

/// Relies on `String::push`: the std documentation says it appends the
/// given `char` to the end of the `String`.
pub assume_specification[ String::push ](s: &mut String, c: char)
    ensures
        final(s)@ == old(s)@.push(c),
;

/// ASCII lower-casing of a single character: `'A'..='Z'` map to
/// `'a'..='z'`, every other character is left unchanged.
pub open spec fn lower_char(c: char) -> char {
    if 65 <= c as u32 && c as u32 <= 90 {
        ((c as u32 + 32) as u8) as char
    } else {
        c
    }
}

/// ASCII lower-casing of a character sequence.
pub open spec fn lower(s: Seq<char>) -> Seq<char> {
    Seq::new(s.len(), |i: int| lower_char(s[i]))
}

/// Executable ASCII lower-casing of one character.
pub fn lower_char_exec(c: char) -> (r: char)
    ensures
        r == lower_char(c),
{
    let u: u32 = c as u32;
    if 65 <= u && u <= 90 {
        ((u + 32) as u8) as char
    } else {
        c
    }
}

/// Index of the last `'.'` in `name`, or `-1` if none occurs.
pub open spec fn last_dot_index(name: Seq<char>) -> int
    decreases name.len(),
{
    if name.len() == 0 {
        -1
    } else if name.last() == '.' {
        name.len() - 1
    } else {
        last_dot_index(name.drop_last())
    }
}

/// `last_dot_index` really is the position of the last dot: either there
/// is no dot at all and the index is `-1`, or the index is in range,
/// holds a dot, and no later position does.
pub proof fn lemma_last_dot_index(name: Seq<char>)
    ensures
        last_dot_index(name) == -1 ==> forall|k: int| 0 <= k < name.len() ==> name[k] != '.',
        last_dot_index(name) != -1 ==> {
            &&& 0 <= last_dot_index(name) < name.len()
            &&& name[last_dot_index(name)] == '.'
            &&& forall|k: int| last_dot_index(name) < k < name.len() ==> name[k] != '.'
        },
    decreases name.len(),
{
    if name.len() > 0 && name.last() != '.' {
        lemma_last_dot_index(name.drop_last());
        assert forall|k: int| 0 <= k < name.len() - 1 implies name.drop_last()[k] == name[k] by {}
    }
}

/// The extension of a file name, mirroring the usual path convention:
/// the portion after the last `'.'`, provided that dot is neither absent
/// nor the leading character (so a dot-file such as `.gitignore` has no
/// extension).
pub open spec fn extension_of(name: Seq<char>) -> Option<Seq<char>> {
    let d = last_dot_index(name);
    if d > 0 {
        Some(name.subrange(d + 1, name.len() as int))
    } else {
        None
    }
}

/// The `file_type` field derived from a file name: the ASCII-lowercased
/// extension, or the literal marker `"unknown"` when the name has none.
pub open spec fn file_type_of(name: Seq<char>) -> Seq<char> {
    match extension_of(name) {
        Some(e) => lower(e),
        None => "unknown"@,
    }
}

/// Compute the `file_type` marker for a file name: the ASCII-lowercased
/// extension, or `"unknown"` when the name has none.
pub fn compute_file_type(name: &str) -> (r: String)
    ensures
        r@ == file_type_of(name@),
{
    let len = name.unicode_len();
    let mut i: usize = len;
    let mut dot_pos: usize = 0;
    let mut has_dot = false;
    while i > 0 && !has_dot
        invariant
            i <= len,
            len == name@.len(),
            !has_dot ==> forall|k: int| i <= k < len ==> name@[k] != '.',
            has_dot ==> {
                &&& dot_pos == i
                &&& i < len
                &&& name@[i as int] == '.'
                &&& forall|k: int| i < k < len ==> name@[k] != '.'
            },
        decreases i,
    {
        let c = name.get_char(i - 1);
        if c == '.' {
            has_dot = true;
            dot_pos = i - 1;
        }
        i = i - 1;
    }
    proof {
        lemma_last_dot_index(name@);
    }
    if has_dot && dot_pos > 0 {
        assert(last_dot_index(name@) == dot_pos);
        let ext = name.substring_char(dot_pos + 1, len);
        let elen = ext.unicode_len();
        let mut out = String::new();
        let mut j: usize = 0;
        while j < elen
            invariant
                j <= elen,
                elen == ext@.len(),
                out@.len() == j,
                forall|k: int| 0 <= k < j ==> out@[k] == lower_char(ext@[k]),
            decreases elen - j,
        {
            let c = ext.get_char(j);
            let lc = lower_char_exec(c);
            out.push(lc);
            j = j + 1;
        }
        assert(out@ =~= lower(ext@));
        out
    } else {
        assert(extension_of(name@) is None);
        String::from_str("unknown")
    }
}

/// A file's metadata record, one per regular file found by a scan.
pub struct FileMeta {
    pub name: String,
    pub path: String,
    pub file_type: String,
    pub size: u64,
    pub created: String,
    pub modified: String,
}

/// The mathematical model of a `FileMeta`.
pub struct MetaModel {
    pub name: Seq<char>,
    pub path: Seq<char>,
    pub file_type: Seq<char>,
    pub size: u64,
    pub created: Seq<char>,
    pub modified: Seq<char>,
}

impl View for FileMeta {
    type V = MetaModel;

    open spec fn view(&self) -> MetaModel {
        MetaModel {
            name: self.name@,
            path: self.path@,
            file_type: self.file_type@,
            size: self.size,
            created: self.created@,
            modified: self.modified@,
        }
    }
}

impl DeepView for FileMeta {
    type V = MetaModel;

    open spec fn deep_view(&self) -> MetaModel {
        self.view()
    }
}

/// A timestamp string, or the marker `"unknown"` when the platform could
/// not supply one.
pub open spec fn stamp_or_unknown(o: Option<Seq<char>>) -> Seq<char> {
    match o {
        Some(s) => s,
        None => "unknown"@,
    }
}

/// The metadata record owed for a regular file with the given raw data.
/// `ext_valid` says whether the extension of the file's platform name,
/// if there is one, could be read as Unicode text: when it could not,
/// the file type is the `"unknown"` marker, whatever the (lossily
/// rendered) name shows.
pub open spec fn meta_model(
    name: Seq<char>,
    path: Seq<char>,
    size: u64,
    ext_valid: bool,
    created: Option<Seq<char>>,
    modified: Option<Seq<char>>,
) -> MetaModel {
    MetaModel {
        name: name,
        path: path,
        file_type: if ext_valid {
            file_type_of(name)
        } else {
            "unknown"@
        },
        size: size,
        created: stamp_or_unknown(created),
        modified: stamp_or_unknown(modified),
    }
}

/// Build the metadata record for one regular file: `file_type` is derived
/// from the name — or forced to `"unknown"` when the caller could not
/// read the platform name's extension as Unicode (`ext_valid` false) —
/// and a missing timestamp falls back to `"unknown"`.
pub fn make_file_meta(
    name: String,
    path: String,
    size: u64,
    ext_valid: bool,
    created: Option<String>,
    modified: Option<String>,
) -> (m: FileMeta)
    ensures
        m@ == meta_model(name@, path@, size, ext_valid, created.deep_view(), modified.deep_view()),
{
    let file_type = if ext_valid {
        compute_file_type(name.as_str())
    } else {
        String::from_str("unknown")
    };
    let created_s = match created {
        Some(s) => s,
        None => String::from_str("unknown"),
    };
    let modified_s = match modified {
        Some(s) => s,
        None => String::from_str("unknown"),
    };
    FileMeta { name, path, file_type, size, created: created_s, modified: modified_s }
}

} // verus!
