//! Which vaults a native client holds, and in which folders under the root the user picked.
//!
//! The binding between folder and vault is the sidecar, never the folder name: rename the
//! folder and it still belongs to the same vault.
use vstd::prelude::*;
use crate::ids::{ulid_text, VaultId};
use crate::numfmt::{dec, fmt_u64};
use crate::projection::{join_path, join_path_exec, str_views};
use crate::text::{append, chars_of, eq, slice, string_of, strip_set, strip_set_exec, trim, trim_end, trim_end_exec, trim_exec};

verus! {

broadcast use vstd::seq_lib::group_seq_properties;

/// One vault folder under the root.
#[derive(Debug, Clone, PartialEq, Eq)]
pub struct VaultFolder {
    pub dir: String,
    /// The vault it belongs to, or `None` for a folder that does not exist yet and whose vault
    /// the engine will create.
    pub id: Option<VaultId>,
}

pub open spec fn lit_vault_dash() -> Seq<char> {
    seq!['v', 'a', 'u', 'l', 't', '-']
}

/// `vault-` and the last six characters of the vault's id.
pub open spec fn default_folder_name_spec(id: VaultId) -> Seq<char> {
    lit_vault_dash() + ulid_text(id.0).skip(20)
}

/// The folder a vault with no name of its own gets: short enough to read, long enough not to
/// collide.
pub fn default_folder_name(id: VaultId) -> (r: String)
    ensures
        r@ == default_folder_name_spec(id),
{
    let s = chars_of(id.to_string().as_str());
    let mut out = chars_of("vault-");
    proof {
        reveal_strlit("vault-");
        assert(out@ =~= lit_vault_dash());
    }
    append(&mut out, &slice(&s, 20, 26));
    proof {
        assert(s@.subrange(20, 26) =~= ulid_text(id.0).skip(20));
    }
    string_of(&out)
}

/// `char::is_control`: the C0 and C1 control characters.
pub open spec fn is_control(c: char) -> bool {
    c <= '\u{1f}' || ('\u{7f}' <= c <= '\u{9f}')
}

/// Path separators and the characters Windows refuses.
pub open spec fn refused(c: char) -> bool {
    c == '/' || c == '\\' || c == ':' || c == '*' || c == '?' || c == '"' || c == '<' || c == '>'
        || c == '|' || is_control(c)
}

/// A vault name with each refused character made `-`, trimmed of spaces and of leading and
/// trailing dots, at most 64 characters; `None` when nothing is left.
pub open spec fn folder_name_spec(name: Seq<char>) -> Option<Seq<char>> {
    let cleaned = name.map_values(|c: char| if refused(c) {
        '-'
    } else {
        c
    });
    let trimmed = trim(strip_set(trim(cleaned), seq!['.', ' ']));
    if trimmed.len() == 0 {
        None
    } else {
        Some(trim_end(trimmed.take(if trimmed.len() < 64 {
            trimmed.len() as int
        } else {
            64
        })))
    }
}

/// A vault name as a folder name: path separators and the characters Windows refuses become
/// `-`, the result is trimmed and capped. Empty (or all-punctuation) names give `None`, and the
/// caller falls back to [`default_folder_name`].
pub fn folder_name_for(name: &str) -> (r: Option<String>)
    ensures
        match r {
            Some(s) => folder_name_spec(name@) == Some(s@),
            None => folder_name_spec(name@) is None,
        },
{
    let n = chars_of(name);
    let mut cleaned: Vec<char> = Vec::new();
    let mut i: usize = 0;
    while i < n.len()
        invariant
            i <= n@.len(),
            cleaned@ == n@.take(i as int).map_values(|c: char| if refused(c) {
                '-'
            } else {
                c
            }),
        decreases n.len() - i,
    {
        let c = n[i];
        let bad = c == '/' || c == '\\' || c == ':' || c == '*' || c == '?' || c == '"' || c == '<'
            || c == '>' || c == '|' || c <= '\u{1f}' || ('\u{7f}' <= c && c <= '\u{9f}');
        cleaned.push(if bad {
            '-'
        } else {
            c
        });
        proof {
            assert(n@.take(i + 1).map_values(|c: char| if refused(c) {
                '-'
            } else {
                c
            }) =~= n@.take(i as int).map_values(|c: char| if refused(c) {
                '-'
            } else {
                c
            }).push(if refused(c) {
                '-'
            } else {
                c
            }));
        }
        i += 1;
    }
    proof {
        assert(n@.take(n@.len() as int) =~= n@);
    }
    let set = vec!['.', ' '];
    proof {
        assert(set@ =~= seq!['.', ' ']);
    }
    let trimmed = trim_exec(&strip_set_exec(&trim_exec(&cleaned), &set));
    if trimmed.len() == 0 {
        return None;
    }
    let k = if trimmed.len() < 64 {
        trimmed.len()
    } else {
        64
    };
    Some(string_of(&trim_end_exec(&slice(&trimmed, 0, k))))
}

/// `name` under `root`, or the first `name-2`, `name-3`… that is neither taken nor planned.
pub open spec fn free_dir_from(root: Seq<char>, name: Seq<char>, taken: Seq<Seq<char>>, n: nat) -> Seq<char>
    decreases 1000 - n,
{
    if n >= 1000 {
        join_path(root, name)
    } else {
        let c = join_path(root, name + seq!['-'] + dec(n));
        if !taken.contains(c) {
            c
        } else {
            free_dir_from(root, name, taken, n + 1)
        }
    }
}

pub open spec fn free_dir(root: Seq<char>, name: Seq<char>, taken: Seq<Seq<char>>) -> Seq<char> {
    if !taken.contains(join_path(root, name)) {
        join_path(root, name)
    } else {
        free_dir_from(root, name, taken, 2)
    }
}

fn free_dir_exec(root: &[char], name: &[char], taken: &Vec<String>) -> (r: String)
    ensures
        r@ == free_dir(root@, name@, str_views(taken@)),
{
    let first = join_path_exec(root, name);
    if !crate::attachments::has_file(taken.as_slice(), &chars_of(first.as_str())) {
        return first;
    }
    let mut n: u64 = 2;
    while n < 1000
        invariant
            2 <= n <= 1000,
            free_dir(root@, name@, str_views(taken@)) == free_dir_from(root@, name@, str_views(taken@), n as nat),
        decreases 1000 - n,
    {
        let mut cand = slice(name, 0, name.len());
        cand.push('-');
        append(&mut cand, &fmt_u64(n));
        proof {
            crate::numfmt::lemma_dec_len(n as nat);
        }
        proof {
            assert(cand@ =~= name@ + seq!['-'] + dec(n as nat));
        }
        let c = join_path_exec(root, &cand);
        if !crate::attachments::has_file(taken.as_slice(), &chars_of(c.as_str())) {
            return c;
        }
        n += 1;
    }
    first
}

pub type FolderView = (Seq<char>, Option<VaultId>);

pub open spec fn folder_views(v: Seq<VaultFolder>) -> Seq<FolderView> {
    v.map_values(|f: VaultFolder| (f.dir@, f.id))
}

/// Whether some folder is the vault's.
pub open spec fn has_vault(folders: Seq<FolderView>, id: VaultId) -> bool {
    exists|k: int| 0 <= k < folders.len() && #[trigger] folders[k].1 == Some(id)
}

/// The remote vaults given folders in turn: one that has a folder keeps it; another gets a new
/// one named after its id, past every path taken so far.
pub open spec fn plan_fold(root: Seq<char>, folders: Seq<FolderView>, taken: Seq<Seq<char>>, remote: Seq<VaultId>) -> Seq<FolderView>
    decreases remote.len(),
{
    if remote.len() == 0 {
        folders
    } else if has_vault(folders, remote[0]) {
        plan_fold(root, folders, taken, remote.drop_first())
    } else {
        let dir = free_dir(root, default_folder_name_spec(remote[0]), taken);
        plan_fold(root, folders.push((dir, Some(remote[0]))), taken.push(dir), remote.drop_first())
    }
}

/// Every vault to open.
pub open spec fn plan_spec(root: Seq<char>, disk: Seq<FolderView>, exist: Seq<Seq<char>>, remote: Seq<VaultId>) -> Seq<FolderView> {
    let f = plan_fold(root, disk, exist + disk.map_values(|x: FolderView| x.0), remote);
    if f.len() == 0 {
        seq![(join_path(root, seq!['n', 'o', 't', 'e', 's']), None)]
    } else {
        f
    }
}

/// Every vault to open: the folders `on_disk` under `root`, plus a new folder for each `remote`
/// vault that has none yet — named after the vault's id, numbered past the paths that `exist`
/// and those already planned. `remote` is what the server says the account can read; an empty
/// list means the server was unreachable or the account has nothing there, and either way what
/// is on disk still opens. With nothing on either side, one folder `notes` for a brand-new
/// vault, so a first run has somewhere to write.
pub fn plan(root: &str, on_disk: Vec<VaultFolder>, exist: &[String], remote: &[VaultId]) -> (r: Vec<VaultFolder>)
    ensures
        folder_views(r@) == plan_spec(root@, folder_views(on_disk@), str_views(exist@), remote@),
{
    let rc = chars_of(root);
    let mut folders = on_disk;
    let ghost disk = folder_views(folders@);
    let mut taken: Vec<String> = Vec::new();
    let mut i: usize = 0;
    while i < exist.len()
        invariant
            i <= exist@.len(),
            str_views(taken@) == str_views(exist@).take(i as int),
        decreases exist.len() - i,
    {
        let ghost before = str_views(taken@);
        let t = exist[i].as_str().to_owned();
        taken.push(t);
        proof {
            assert(str_views(taken@) =~= before.push(t@));
            assert(str_views(exist@).take(i + 1) =~= str_views(exist@).take(i as int).push(exist@[i as int]@));
        }
        i += 1;
    }
    let mut i: usize = 0;
    while i < folders.len()
        invariant
            i <= folders@.len(),
            disk == folder_views(folders@),
            str_views(taken@) == str_views(exist@) + disk.map_values(|x: FolderView| x.0).take(i as int),
        decreases folders.len() - i,
    {
        let ghost before = str_views(taken@);
        let t = folders[i].dir.as_str().to_owned();
        taken.push(t);
        proof {
            assert(str_views(taken@) =~= before.push(t@));
            assert(t@ == disk.map_values(|x: FolderView| x.0)[i as int]);
            assert(disk.map_values(|x: FolderView| x.0).take(i + 1) =~= disk.map_values(|x: FolderView| x.0).take(
                i as int,
            ).push(t@));
            assert(str_views(taken@) =~= str_views(exist@) + disk.map_values(|x: FolderView| x.0).take(i + 1));
        }
        i += 1;
    }
    proof {
        assert(disk.map_values(|x: FolderView| x.0).take(folders@.len() as int) =~= disk.map_values(|x: FolderView| x.0));
        assert(remote@.skip(0) =~= remote@);
    }
    let ghost total = plan_fold(rc@, disk, str_views(taken@), remote@);
    let mut j: usize = 0;
    while j < remote.len()
        invariant
            j <= remote@.len(),
            total == plan_fold(rc@, folder_views(folders@), str_views(taken@), remote@.skip(j as int)),
        decreases remote.len() - j,
    {
        proof {
            assert(remote@.skip(j as int).drop_first() =~= remote@.skip(j + 1));
            assert(remote@.skip(j as int)[0] == remote@[j as int]);
        }
        let id = remote[j];
        let mut known = false;
        let mut k: usize = 0;
        while k < folders.len()
            invariant
                k <= folders@.len(),
                known == exists|q: int| 0 <= q < k && (#[trigger] folder_views(folders@)[q]).1 == Some(id),
            decreases folders.len() - k,
        {
            let hit = match folders[k].id {
                Some(f) => f.0 == id.0,
                None => false,
            };
            proof {
                assert(hit == (folder_views(folders@)[k as int].1 == Some(id)));
            }
            if hit {
                known = true;
            }
            k += 1;
        }
        if !known {
            let name = default_folder_name(id);
            let dir = free_dir_exec(&rc, &chars_of(name.as_str()), &taken);
            let ghost before_f = folder_views(folders@);
            let ghost before_t = str_views(taken@);
            taken.push(dir.as_str().to_owned());
            folders.push(VaultFolder { dir, id: Some(id) });
            proof {
                assert(folder_views(folders@) =~= before_f.push((dir@, Some(id))));
                assert(str_views(taken@) =~= before_t.push(dir@));
            }
        }
        j += 1;
    }
    proof {
        assert(remote@.skip(remote@.len() as int) =~= Seq::<VaultId>::empty());
    }
    if folders.len() == 0 {
        let notes = chars_of("notes");
        proof {
            reveal_strlit("notes");
            assert(notes@ =~= seq!['n', 'o', 't', 'e', 's']);
        }
        let ghost before_f = folder_views(folders@);
        folders.push(VaultFolder { dir: join_path_exec(&rc, &notes), id: None });
        proof {
            assert(folder_views(folders@) =~= seq![(join_path(root@, seq!['n', 'o', 't', 'e', 's']), None::<VaultId>)]);
        }
    }
    folders
}

} // verus!
