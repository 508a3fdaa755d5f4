//! Which candidate paths count as text files: the file's extension must
//! match one of the accepted extensions, compared case-insensitively. The
//! file indexer itself (directory traversal) is an external collaborator;
//! these predicates are what it filters with.
use vstd::prelude::*;
use vstd::string::StrSliceExecFns;
use vstd::string::StringExecFns;

verus! {

/// The lowercased form of a string of characters. Depends on the
/// characters alone.
pub uninterp spec fn lower_of(s: Seq<char>) -> Seq<char>;

/// Relies on `str::to_lowercase`: the result depends on the characters
/// alone.
#[verifier::external_body]
fn lowercase(s: &String) -> (r: String)
    ensures
        r@ == lower_of(s@),
{
    s.to_lowercase()
}

/// The final component of a path: everything after the last `/`.
pub open spec fn spec_file_name(p: Seq<char>) -> Seq<char> {
    match p.index_of_last('/') {
        Some(i) => p.skip(i + 1),
        None => p,
    }
}

/// The extension of a path: what follows the last `.` of the final
/// component, provided that dot is not the component's first character
/// (so a hidden file such as a leading-dot name has none).
pub open spec fn spec_extension(p: Seq<char>) -> Option<Seq<char>> {
    let name = spec_file_name(p);
    match name.index_of_last('.') {
        Some(i) => if i > 0 {
            Some(name.skip(i + 1))
        } else {
            None
        },
        None => None,
    }
}

/// Whether a name is hidden: it starts with a dot.
pub open spec fn spec_is_hidden(name: Seq<char>) -> bool {
    name.len() > 0 && name[0] == '.'
}

/// Whether the file name starts with a dot; the indexer skips such
/// entries.
pub fn is_hidden_name(name: &String) -> (r: bool)
    ensures
        r == spec_is_hidden(name@),
{
    let s = name.as_str();
    let n = s.unicode_len();
    if n == 0 {
        false
    } else {
        s.get_char(0) == '.'
    }
}

/// Finds the last index of `needle` at or after `from`, or reports that
/// there is none there.
fn rfind_char_from(s: &str, needle: char, from: usize) -> (r: Option<usize>)
    requires
        from <= s@.len(),
    ensures
        (match r {
            Some(i) => from <= i < s@.len() && s@[i as int] == needle && (forall|j: int|
                i < j < s@.len() ==> s@[j] != needle),
            None => forall|j: int| from <= j < s@.len() ==> s@[j] != needle,
        }),
{
    let n = s.unicode_len();
    let mut i = n;
    while i > from
        invariant
            from <= i <= n,
            n == s@.len(),
            forall|j: int| i <= j < s@.len() ==> s@[j] != needle,
        decreases i,
    {
        i = i - 1;
        if s.get_char(i) == needle {
            return Some(i);
        }
    }
    None
}

/// The extension of a path, as `spec_extension` describes it.
pub fn extension_of(path: &String) -> (r: Option<String>)
    ensures
        (match r {
            Some(e) => spec_extension(path@) == Some(e@),
            None => spec_extension(path@) is None,
        }),
{
    let s = path.as_str();
    let n = s.unicode_len();
    let slash = rfind_char_from(s, '/', 0);
    let base: usize = match slash {
        Some(i) => i + 1,
        None => 0,
    };
    proof {
        path@.index_of_last_ensures('/');
        match slash {
            Some(i) => {
                match path@.index_of_last('/') {
                    Some(k) => {
                        assert(k == i) by {
                            if k < i {
                                assert(path@[i as int] == '/');
                            } else if k > i {
                                assert(path@[k] == '/');
                            }
                        }
                    },
                    None => {
                        assert(path@.contains(path@[base - 1]));
                    },
                }
            },
            None => {
                match path@.index_of_last('/') {
                    Some(k) => {
                        assert(path@[k] == '/');
                    },
                    None => {},
                }
            },
        }
        assert(spec_file_name(path@) =~= path@.skip(base as int));
    }
    let ghost name = spec_file_name(path@);
    let dot = rfind_char_from(s, '.', base);
    proof {
        name.index_of_last_ensures('.');
        assert(forall|j: int| 0 <= j < name.len() ==> name[j] == path@[base + j]);
        match dot {
            Some(i) => {
                assert(name[i - base] == '.');
                assert(name.contains('.')) by {
                    assert(name[i - base] == '.');
                }
                match name.index_of_last('.') {
                    Some(k) => {
                        assert(k == i - base) by {
                            if k < i - base {
                                assert(name[i - base] == '.');
                            } else if k > i - base {
                                assert(name[k] == '.');
                                assert(path@[base + k] == '.');
                            }
                        }
                    },
                    None => {},
                }
            },
            None => {
                match name.index_of_last('.') {
                    Some(k) => {
                        assert(name[k] == '.');
                        assert(path@[base + k] == '.');
                    },
                    None => {},
                }
            },
        }
    }
    match dot {
        Some(i) => {
            if i > base {
                let ext = s.substring_char(i + 1, n);
                let owned = String::from_str(ext);
                proof {
                    assert(name.skip(i - base + 1) =~= path@.subrange(i + 1, n as int));
                }
                Some(owned)
            } else {
                None
            }
        },
        None => None,
    }
}

/// The views of a list of owned extension strings.
pub open spec fn extensions_view(v: Seq<String>) -> Seq<Seq<char>> {
    v.map_values(|s: String| s@)
}

/// The built-in extensions treated as text when none are given.
pub open spec fn spec_default_extensions() -> Seq<Seq<char>> {
    seq![
        "txt"@, "md"@, "rs"@, "py"@, "js"@, "ts"@, "html"@, "css"@, "json"@, "yaml"@, "yml"@,
        "toml"@, "ini"@, "sh"@, "bash"@, "cpp"@, "c"@, "h"@, "java"@, "go"@, "rb"@, "php"@,
        "sql"@,
    ]
}

/// The built-in list of text-file extensions.
pub fn default_extensions() -> (r: Vec<String>)
    ensures
        extensions_view(r@) == spec_default_extensions(),
{
    let mut v: Vec<String> = Vec::new();
    v.push(String::from_str("txt"));
    v.push(String::from_str("md"));
    v.push(String::from_str("rs"));
    v.push(String::from_str("py"));
    v.push(String::from_str("js"));
    v.push(String::from_str("ts"));
    v.push(String::from_str("html"));
    v.push(String::from_str("css"));
    v.push(String::from_str("json"));
    v.push(String::from_str("yaml"));
    v.push(String::from_str("yml"));
    v.push(String::from_str("toml"));
    v.push(String::from_str("ini"));
    v.push(String::from_str("sh"));
    v.push(String::from_str("bash"));
    v.push(String::from_str("cpp"));
    v.push(String::from_str("c"));
    v.push(String::from_str("h"));
    v.push(String::from_str("java"));
    v.push(String::from_str("go"));
    v.push(String::from_str("rb"));
    v.push(String::from_str("php"));
    v.push(String::from_str("sql"));
    proof {
        assert(extensions_view(v@) =~= spec_default_extensions());
    }
    v
}

/// The extension list in force: the given one, or the built-in list.
pub open spec fn ext_list(exts: Option<Seq<Seq<char>>>) -> Seq<Seq<char>> {
    match exts {
        Some(l) => l,
        None => spec_default_extensions(),
    }
}

/// Whether `e` equals some listed extension, ignoring case on both sides.
pub open spec fn matches_some_extension(list: Seq<Seq<char>>, e: Seq<char>) -> bool {
    exists|i: int| 0 <= i < list.len() && #[trigger] lower_of(list[i]) == lower_of(e)
}

/// Whether a path names a text file under the given extension list: its
/// extension must equal one of the listed ones, ignoring case on both
/// sides. With no explicit list the built-in one applies.
pub open spec fn spec_is_text_file(p: Seq<char>, exts: Option<Seq<Seq<char>>>) -> bool {
    match spec_extension(p) {
        Some(e) => matches_some_extension(ext_list(exts), e),
        None => false,
    }
}

/// Whether the path names a text file: it has an extension, and the
/// extension matches one of `extensions` (or of the built-in list, if
/// `extensions` is `None`), ignoring case on both sides.
pub fn is_text_file(path: &String, extensions: &Option<Vec<String>>) -> (r: bool)
    ensures
        r == spec_is_text_file(
            path@,
            (match *extensions {
                Some(ref v) => Some(extensions_view(v@)),
                None => None,
            }),
        ),
{
    let ext = extension_of(path);
    match ext {
        None => false,
        Some(e) => {
            let owned_defaults: Vec<String>;
            let list: &Vec<String> = match extensions {
                Some(v) => v,
                None => {
                    owned_defaults = default_extensions();
                    &owned_defaults
                },
            };
            let ghost lv = extensions_view(list@);
            let target = lowercase(&e);
            let mut i: usize = 0;
            while i < list.len()
                invariant
                    0 <= i <= list@.len(),
                    lv == extensions_view(list@),
                    target@ == lower_of(e@),
                    spec_extension(path@) == Some(e@),
                    (match *extensions {
                        Some(ref v) => lv == extensions_view(v@),
                        None => lv == spec_default_extensions(),
                    }),
                    forall|j: int| 0 <= j < i ==> lower_of(lv[j]) != lower_of(e@),
                decreases list@.len() - i,
            {
                proof {
                    assert(lv[i as int] == list@[i as int]@);
                }
                let cand = lowercase(&list[i]);
                if cand == target {
                    proof {
                        let opt = (match *extensions {
                            Some(ref v) => Some(extensions_view(v@)),
                            None => Option::<Seq<Seq<char>>>::None,
                        });
                        assert(ext_list(opt) == lv);
                        assert(lower_of(lv[i as int]) == lower_of(e@));
                        assert(matches_some_extension(lv, e@));
                    }
                    return true;
                }
                i = i + 1;
            }
            proof {
                let opt = (match *extensions {
                    Some(ref v) => Some(extensions_view(v@)),
                    None => Option::<Seq<Seq<char>>>::None,
                });
                assert(ext_list(opt) == lv);
                assert(!matches_some_extension(lv, e@));
            }
            false
        },
    }
}

} // verus!
