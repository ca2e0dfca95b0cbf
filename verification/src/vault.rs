//! The note store: vault configuration, the note cache, and the pure
//! decisions behind the store's file operations.
//!
//! The store's disk work (reading, writing, renaming, walking the root)
//! is performed by the surrounding application, which hands this module
//! plain values: whether the root exists, the walked file list, and a
//! note's content as read. Everything the store decides and records —
//! name derivation, file filtering, the cache — is here, and the cache
//! is specified as a map from path to note.

use vstd::prelude::*;
use vstd::hash_map::StringHashMap;
use crate::error::ArkeError;
use crate::paths::{check_listed, is_listed, vault_name, vault_name_of};

verus! {

/// Configuration for a vault.
#[derive(Debug, Clone)]
pub struct VaultConfig {
    /// Root path of the vault.
    pub path: String,
    /// Name of the vault.
    pub name: String,
    /// Whether to watch for file changes.
    pub watch: bool,
}

/// Mathematical model of a vault configuration.
pub ghost struct ConfigV {
    pub path: Seq<char>,
    pub name: Seq<char>,
    pub watch: bool,
}

impl View for VaultConfig {
    type V = ConfigV;

    open spec fn view(&self) -> ConfigV {
        ConfigV { path: self.path@, name: self.name@, watch: self.watch }
    }
}

/// A note of the vault.
#[derive(Debug, Clone)]
pub struct Note {
    /// File path relative to the vault root.
    pub path: String,
    /// Note content.
    pub content: String,
    /// Frontmatter metadata; parsing it is a declared gap, so it is
    /// always empty.
    pub metadata: Vec<(String, String)>,
    /// Last modified time in seconds since the epoch, when the
    /// filesystem reported one.
    pub modified: Option<u64>,
}

/// Mathematical model of a note.
pub ghost struct NoteV {
    pub path: Seq<char>,
    pub content: Seq<char>,
    pub metadata: Seq<(Seq<char>, Seq<char>)>,
    pub modified: Option<u64>,
}

impl View for Note {
    type V = NoteV;

    open spec fn view(&self) -> NoteV {
        NoteV {
            path: self.path@,
            content: self.content@,
            metadata: self.metadata.deep_view(),
            modified: self.modified,
        }
    }
}

impl DeepView for Note {
    type V = NoteV;

    open spec fn deep_view(&self) -> NoteV {
        self.view()
    }
}

/// The entries of a walked file list that the vault lists as notes.
pub open spec fn listed_files(entries: Seq<Seq<char>>) -> Seq<Seq<char>>
    decreases entries.len(),
{
    if entries.len() == 0 {
        Seq::empty()
    } else {
        let rest = listed_files(entries.drop_first());
        if is_listed(entries[0]) {
            seq![entries[0]] + rest
        } else {
            rest
        }
    }
}

/// An owned copy of a note, equal as a value.
fn duplicate_note(n: &Note) -> (r: Note)
    ensures
        r@ == n@,
{
    let mut metadata: Vec<(String, String)> = Vec::new();
    let mut k: usize = 0;
    while k < n.metadata.len()
        invariant
            0 <= k <= n.metadata.len(),
            metadata.deep_view() =~= n.metadata.deep_view().take(k as int),
        decreases n.metadata.len() - k,
    {
        let ghost before = metadata.deep_view();
        metadata.push((n.metadata[k].0.clone(), n.metadata[k].1.clone()));
        proof {
            assert(metadata.deep_view() =~= before.push(n.metadata.deep_view()[k as int]));
            assert(metadata.deep_view() =~= n.metadata.deep_view().take(k as int + 1));
        }
        k = k + 1;
    }
    proof {
        assert(metadata.deep_view() =~= n.metadata.deep_view());
    }
    let r = Note {
        path: n.path.clone(),
        content: n.content.clone(),
        metadata,
        modified: n.modified,
    };
    r
}

/// The vault: a collection of notes under one root.
pub struct Vault {
    config: VaultConfig,
    notes: StringHashMap<Note>,
}

impl Vault {
    /// The configuration, as a model.
    pub closed spec fn spec_config(&self) -> ConfigV {
        self.config@
    }

    /// The note cache, as a model: relative path to cached note.
    pub closed spec fn cache(&self) -> Map<Seq<char>, NoteV> {
        self.notes@.map_values(|n: Note| n@)
    }

    /// Create a vault with the given configuration. `root_exists` says
    /// whether the configured root is present on disk, which the caller
    /// has checked; creation fails exactly when it is absent.
    pub fn new(config: VaultConfig, root_exists: bool) -> (r: Result<Vault, ArkeError>)
        ensures
            root_exists ==> (r matches Ok(v) && v.spec_config() == config@ && v.cache()
                == Map::<Seq<char>, NoteV>::empty()),
            !root_exists ==> (r matches Err(e) && e matches ArkeError::Vault(m) && m@
                == "Vault path does not exist: "@ + config.path@),
    {
        if !root_exists {
            let msg = String::from_str("Vault path does not exist: ");
            let msg = msg.concat(config.path.as_str());
            return Err(ArkeError::Vault(msg));
        }
        let v = Vault { config, notes: StringHashMap::new() };
        proof {
            assert(v.cache() =~= Map::<Seq<char>, NoteV>::empty());
        }
        Ok(v)
    }

    /// Open a vault at `path`, deriving the vault name from the final
    /// path segment, or `Untitled` when that is unavailable. The watch
    /// flag starts off. `root_exists` says whether `path` is present on
    /// disk; opening fails exactly when it is not.
    pub fn open(path: String, root_exists: bool) -> (r: Result<Vault, ArkeError>)
        ensures
            root_exists ==> (r matches Ok(v) && {
                &&& v.spec_config().path == path@
                &&& v.spec_config().watch == false
                &&& v.spec_config().name == (match vault_name_of(path@) {
                    Some(n) => n,
                    None => "Untitled"@,
                })
                &&& v.cache() == Map::<Seq<char>, NoteV>::empty()
            }),
            !root_exists ==> (r matches Err(e) && e matches ArkeError::Vault(m) && m@
                == "Vault path does not exist: "@ + path@),
    {
        let name = match vault_name(path.as_str()) {
            Some(n) => n,
            None => String::from_str("Untitled"),
        };
        let config = VaultConfig { path, name, watch: false };
        Vault::new(config, root_exists)
    }

    /// The vault configuration.
    pub fn config(&self) -> (r: &VaultConfig)
        ensures
            r@ == self.spec_config(),
    {
        &self.config
    }

    /// The notes among the walked file list `entries`: every entry with
    /// the note extension that no pruned directory hides, in `entries`
    /// order. The caller supplies `entries` by walking the root; it must
    /// sort the result if it needs a stable order.
    pub fn list_files(&self, entries: &Vec<String>) -> (r: Vec<String>)
        ensures
            r.deep_view() == listed_files(entries.deep_view()),
    {
        let ghost es = entries.deep_view();
        let mut out: Vec<String> = Vec::new();
        let mut k: usize = 0;
        proof {
            assert(es.skip(0) =~= es);
            assert(out.deep_view() + listed_files(es.skip(0)) =~= listed_files(es));
        }
        while k < entries.len()
            invariant
                0 <= k <= entries.len(),
                es == entries.deep_view(),
                out.deep_view() + listed_files(es.skip(k as int)) == listed_files(es),
            decreases entries.len() - k,
        {
            proof {
                assert(es.skip(k as int)[0] == es[k as int]);
                assert(es.skip(k as int).drop_first() =~= es.skip(k as int + 1));
            }
            if check_listed(entries[k].as_str()) {
                let ghost before = out.deep_view();
                out.push(entries[k].clone());
                proof {
                    assert(out.deep_view() =~= before.push(es[k as int]));
                    assert(out.deep_view() + listed_files(es.skip(k as int + 1)) =~= listed_files(
                        es,
                    ));
                }
            } else {
                proof {
                    assert(out.deep_view() + listed_files(es.skip(k as int + 1)) =~= listed_files(
                        es,
                    ));
                }
            }
            k = k + 1;
        }
        proof {
            assert(es.skip(es.len() as int) =~= Seq::<Seq<char>>::empty());
            assert(out.deep_view() =~= listed_files(es));
        }
        out
    }

    /// Record a note read from disk, with `content` and `modified` as
    /// the filesystem reported them: the cache entry for `path` is
    /// created or overwritten, and the cached note is returned. The
    /// caller reads the file and fails with `FileNotFound` when it has
    /// no backing file; metadata stays empty, a declared gap.
    pub fn read_note(&mut self, path: &str, content: String, modified: Option<u64>) -> (r: &Note)
        ensures
            r@ == (NoteV {
                path: path@,
                content: content@,
                metadata: Seq::empty(),
                modified,
            }),
            final(self).cache() == old(self).cache().insert(path@, r@),
            final(self).spec_config() == old(self).spec_config(),
    {
        let note = Note { path: path.to_owned(), content, metadata: Vec::new(), modified };
        proof {
            assert(note@.metadata =~= Seq::<(Seq<char>, Seq<char>)>::empty());
        }
        let ghost nv = note@;
        self.notes.insert(path.to_owned(), note);
        proof {
            assert(self.cache() =~= old(self).cache().insert(path@, nv));
        }
        match self.notes.get(path) {
            Some(n) => n,
            None => {
                proof {
                    assert(self.notes@.contains_key(path@));
                    assert(false);
                }
                vstd::pervasive::unreached()
            },
        }
    }

    /// Record a written note: the caller has written `content` to disk
    /// at `path`, creating parent directories as needed; the cache gains
    /// a fresh entry whose modified time is unset.
    pub fn write_note(&mut self, path: &str, content: &str)
        ensures
            final(self).cache() == old(self).cache().insert(
                path@,
                NoteV { path: path@, content: content@, metadata: Seq::empty(), modified: None },
            ),
            final(self).spec_config() == old(self).spec_config(),
    {
        let note = Note {
            path: path.to_owned(),
            content: content.to_owned(),
            metadata: Vec::new(),
            modified: None,
        };
        proof {
            assert(note@.metadata =~= Seq::<(Seq<char>, Seq<char>)>::empty());
        }
        let ghost nv = note@;
        self.notes.insert(path.to_owned(), note);
        proof {
            assert(self.cache() =~= old(self).cache().insert(path@, nv));
        }
    }

    /// Evict the cache entry of a deleted note. The caller removes the
    /// file and reports its error; the entry goes regardless of that
    /// outcome.
    pub fn delete_note(&mut self, path: &str)
        ensures
            final(self).cache() == old(self).cache().remove(path@),
            final(self).spec_config() == old(self).spec_config(),
    {
        self.notes.remove(path);
        proof {
            assert(self.cache() =~= old(self).cache().remove(path@));
        }
    }

    /// Move the cache entry of a renamed note: only an entry that exists
    /// moves, with its path updated; a rename never populates the cache.
    /// The caller performs the filesystem rename.
    pub fn rename_note(&mut self, old_path: &str, new_path: &str)
        ensures
            old(self).cache().contains_key(old_path@) ==> final(self).cache() == old(
                self,
            ).cache().remove(old_path@).insert(
                new_path@,
                NoteV { path: new_path@, ..old(self).cache()[old_path@] },
            ),
            !old(self).cache().contains_key(old_path@) ==> final(self).cache() == old(
                self,
            ).cache(),
            final(self).spec_config() == old(self).spec_config(),
    {
        let dup: Option<Note> = match self.notes.get(old_path) {
            Some(n) => Some(duplicate_note(n)),
            None => None,
        };
        match dup {
            Some(mut n) => {
                self.notes.remove(old_path);
                n.path = new_path.to_owned();
                let ghost nv = n@;
                self.notes.insert(new_path.to_owned(), n);
                proof {
                    assert(nv == NoteV { path: new_path@, ..old(self).cache()[old_path@] });
                    assert(self.cache() =~= old(self).cache().remove(old_path@).insert(
                        new_path@,
                        nv,
                    ));
                }
            },
            None => {
                proof {
                    assert(self.cache() =~= old(self).cache());
                }
            },
        }
    }

    /// The cached note for `path`, if one is present.
    pub fn get_note(&self, path: &str) -> (r: Option<&Note>)
        ensures
            r is Some <==> self.cache().contains_key(path@),
            r matches Some(n) ==> n@ == self.cache()[path@],
    {
        self.notes.get(path)
    }
}

/// Law: recording a write of `content` under `p` and then looking `p`
/// up yields exactly `content`.
pub proof fn lemma_write_read_round_trip(
    cache: Map<Seq<char>, NoteV>,
    p: Seq<char>,
    content: Seq<char>,
)
    ensures
        ({
            let after = cache.insert(
                p,
                NoteV { path: p, content, metadata: Seq::empty(), modified: None },
            );
            after.contains_key(p) && after[p].content == content
        }),
{
}

} // verus!
