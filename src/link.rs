//! Hard links and mounted devices of the file layer, kept in tables that the
//! caller owns. A name is a directory path together with a file name.
use vstd::prelude::*;
use vstd::string::{StrSliceExecFns, StringExecFns};

verus! {

/// A name, as the pair of its path and file characters.
pub type Name = (Seq<char>, Seq<char>);

/// The value that the last entry with key `k` maps to, if any entry has it.
pub open spec fn find_in<V>(s: Seq<(Name, V)>, k: Name) -> Option<V>
    decreases s.len(),
{
    if s.len() == 0 {
        None
    } else if s.last().0 == k {
        Some(s.last().1)
    } else {
        find_in(s.drop_last(), k)
    }
}

/// The entries of `s` whose key is not `k`, in order.
pub open spec fn without_key<V>(s: Seq<(Name, V)>, k: Name) -> Seq<(Name, V)>
    decreases s.len(),
{
    if s.len() == 0 {
        s
    } else if s.last().0 == k {
        without_key(s.drop_last(), k)
    } else {
        without_key(s.drop_last(), k).push(s.last())
    }
}

/// Dropping the entries of one key leaves every other key's value alone.
pub proof fn lemma_without_key<V>(s: Seq<(Name, V)>, k: Name, q: Name)
    ensures
        find_in(without_key(s, k), q) == if q == k {
            None
        } else {
            find_in(s, q)
        },
    decreases s.len(),
{
    if s.len() > 0 {
        lemma_without_key(s.drop_last(), k, q);
        if s.last().0 != k {
            let w = without_key(s.drop_last(), k).push(s.last());
            assert(w.drop_last() =~= without_key(s.drop_last(), k));
        }
    }
}

/// `s` with key `k` mapped to `v`: the old entries of `k` go, one new entry
/// is appended.
pub open spec fn with_entry<V>(s: Seq<(Name, V)>, k: Name, v: V) -> Seq<(Name, V)> {
    without_key(s, k).push((k, v))
}

/// Mapping a key changes what that key finds and nothing else.
pub proof fn lemma_with_entry<V>(s: Seq<(Name, V)>, k: Name, v: V, q: Name)
    ensures
        find_in(with_entry(s, k, v), q) == if q == k {
            Some(v)
        } else {
            find_in(s, q)
        },
{
    lemma_without_key(s, k, q);
    assert(with_entry(s, k, v).drop_last() =~= without_key(s, k));
}

/// Where a user-visible name leads: its link target, or the name itself.
pub open spec fn resolve(links: Seq<(Name, Name)>, n: Name) -> Name {
    match find_in(links, n) {
        Some(t) => t,
        None => n,
    }
}

/// The link count of a target file: the recorded count, or one where the file
/// was never linked.
pub open spec fn count_of(counts: Seq<(Name, usize)>, n: Name) -> usize {
    match find_in(counts, n) {
        Some(c) => c,
        None => 1,
    }
}

/// A file, by its directory path and its file name.
pub struct FileDisc {
    pub path: String,
    pub file: String,
}

impl View for FileDisc {
    type V = Name;

    open spec fn view(&self) -> Name {
        (self.path@, self.file@)
    }
}

impl FileDisc {
    /// The file `file` in directory `path`.
    pub fn new(path: &String, file: &String) -> (r: Self)
        ensures
            r@ == (path@, file@),
    {
        FileDisc { path: path.clone(), file: file.clone() }
    }

    /// A copy of this name.
    pub fn duplicate(&self) -> (r: Self)
        ensures
            r@ == self@,
    {
        FileDisc::new(&self.path, &self.file)
    }

    /// Whether two names are the same.
    pub fn same(&self, other: &FileDisc) -> (r: bool)
        ensures
            r == (self@ == other@),
    {
        self.path == other.path && self.file == other.file
    }
}

/// The link tables: where each user-visible name leads, and how many names
/// lead to each target file.
pub struct LinkTable {
    links: Vec<(FileDisc, FileDisc)>,
    counts: Vec<(FileDisc, usize)>,
}

/// The view of one link entry.
pub open spec fn link_view(p: (FileDisc, FileDisc)) -> (Name, Name) {
    (p.0@, p.1@)
}

/// The view of one count entry.
pub open spec fn count_view(p: (FileDisc, usize)) -> (Name, usize) {
    (p.0@, p.1)
}

impl LinkTable {
    /// The link entries, oldest first.
    pub closed spec fn links(&self) -> Seq<(Name, Name)> {
        self.links@.map_values(|p: (FileDisc, FileDisc)| link_view(p))
    }

    /// The count entries, oldest first.
    pub closed spec fn counts(&self) -> Seq<(Name, usize)> {
        self.counts@.map_values(|p: (FileDisc, usize)| count_view(p))
    }

    /// Tables with no link recorded.
    pub fn new() -> (r: Self)
        ensures
            r.links() == Seq::<(Name, Name)>::empty(),
            r.counts() == Seq::<(Name, usize)>::empty(),
    {
        let r = LinkTable { links: Vec::new(), counts: Vec::new() };
        proof {
            assert(r.links() =~= Seq::<(Name, Name)>::empty());
            assert(r.counts() =~= Seq::<(Name, usize)>::empty());
        }
        r
    }

    fn find_link(&self, key: &FileDisc) -> (r: Option<FileDisc>)
        ensures
            r matches Some(t) ==> find_in(self.links(), key@) == Some(t@),
            r is None ==> find_in(self.links(), key@) is None,
    {
        let mut i: usize = self.links.len();
        proof {
            assert(self.links().take(i as int) =~= self.links());
        }
        while i > 0
            invariant
                i <= self.links@.len(),
                self.links().len() == self.links@.len(),
                find_in(self.links(), key@) == find_in(self.links().take(i as int), key@),
            decreases i,
        {
            proof {
                assert(self.links().take(i as int).drop_last() =~= self.links().take(i - 1));
            }
            if self.links[i - 1].0.same(key) {
                return Some(self.links[i - 1].1.duplicate());
            }
            i -= 1;
        }
        proof {
            assert(self.links().take(0) =~= Seq::<(Name, Name)>::empty());
        }
        None
    }

    fn find_count(&self, key: &FileDisc) -> (r: Option<usize>)
        ensures
            r == find_in(self.counts(), key@),
    {
        let mut i: usize = self.counts.len();
        proof {
            assert(self.counts().take(i as int) =~= self.counts());
        }
        while i > 0
            invariant
                i <= self.counts@.len(),
                self.counts().len() == self.counts@.len(),
                find_in(self.counts(), key@) == find_in(self.counts().take(i as int), key@),
            decreases i,
        {
            proof {
                assert(self.counts().take(i as int).drop_last() =~= self.counts().take(i - 1));
            }
            if self.counts[i - 1].0.same(key) {
                return Some(self.counts[i - 1].1);
            }
            i -= 1;
        }
        proof {
            assert(self.counts().take(0) =~= Seq::<(Name, usize)>::empty());
        }
        None
    }

    fn set_link(&mut self, key: FileDisc, target: FileDisc)
        ensures
            final(self).links() == with_entry(old(self).links(), key@, target@),
            final(self).counts() == old(self).counts(),
    {
        let mut kept: Vec<(FileDisc, FileDisc)> = Vec::new();
        let mut i: usize = 0;
        while i < self.links.len()
            invariant
                i <= self.links@.len(),
                self.links().len() == self.links@.len(),
                kept@.map_values(|p: (FileDisc, FileDisc)| link_view(p)) == without_key(
                    self.links().take(i as int),
                    key@,
                ),
                self == old(self),
            decreases self.links@.len() - i,
        {
            let ghost before = kept@.map_values(|p: (FileDisc, FileDisc)| link_view(p));
            proof {
                assert(self.links().take(i + 1).drop_last() =~= self.links().take(i as int));
            }
            if !self.links[i].0.same(&key) {
                let entry = (self.links[i].0.duplicate(), self.links[i].1.duplicate());
                kept.push(entry);
                proof {
                    assert(kept@.map_values(|p: (FileDisc, FileDisc)| link_view(p)) =~= before.push(
                        self.links()[i as int],
                    ));
                }
            }
            i += 1;
        }
        proof {
            assert(self.links().take(self.links@.len() as int) =~= self.links());
        }
        let ghost before = kept@.map_values(|p: (FileDisc, FileDisc)| link_view(p));
        kept.push((key, target));
        proof {
            assert(kept@.map_values(|p: (FileDisc, FileDisc)| link_view(p)) =~= before.push(
                (key@, target@),
            ));
        }
        self.links = kept;
    }

    fn remove_link(&mut self, key: &FileDisc)
        ensures
            final(self).links() == without_key(old(self).links(), key@),
            final(self).counts() == old(self).counts(),
    {
        let mut kept: Vec<(FileDisc, FileDisc)> = Vec::new();
        let mut i: usize = 0;
        while i < self.links.len()
            invariant
                i <= self.links@.len(),
                self.links().len() == self.links@.len(),
                kept@.map_values(|p: (FileDisc, FileDisc)| link_view(p)) == without_key(
                    self.links().take(i as int),
                    key@,
                ),
                self == old(self),
            decreases self.links@.len() - i,
        {
            let ghost before = kept@.map_values(|p: (FileDisc, FileDisc)| link_view(p));
            proof {
                assert(self.links().take(i + 1).drop_last() =~= self.links().take(i as int));
            }
            if !self.links[i].0.same(key) {
                let entry = (self.links[i].0.duplicate(), self.links[i].1.duplicate());
                kept.push(entry);
                proof {
                    assert(kept@.map_values(|p: (FileDisc, FileDisc)| link_view(p)) =~= before.push(
                        self.links()[i as int],
                    ));
                }
            }
            i += 1;
        }
        proof {
            assert(self.links().take(self.links@.len() as int) =~= self.links());
        }
        self.links = kept;
    }

    fn drop_count(&mut self, key: &FileDisc)
        ensures
            final(self).counts() == without_key(old(self).counts(), key@),
            final(self).links() == old(self).links(),
    {
        let mut kept: Vec<(FileDisc, usize)> = Vec::new();
        let mut i: usize = 0;
        while i < self.counts.len()
            invariant
                i <= self.counts@.len(),
                self.counts().len() == self.counts@.len(),
                kept@.map_values(|p: (FileDisc, usize)| count_view(p)) == without_key(
                    self.counts().take(i as int),
                    key@,
                ),
                self == old(self),
            decreases self.counts@.len() - i,
        {
            let ghost before = kept@.map_values(|p: (FileDisc, usize)| count_view(p));
            proof {
                assert(self.counts().take(i + 1).drop_last() =~= self.counts().take(i as int));
            }
            if !self.counts[i].0.same(key) {
                let entry = (self.counts[i].0.duplicate(), self.counts[i].1);
                kept.push(entry);
                proof {
                    assert(kept@.map_values(|p: (FileDisc, usize)| count_view(p)) =~= before.push(
                        self.counts()[i as int],
                    ));
                }
            }
            i += 1;
        }
        proof {
            assert(self.counts().take(self.counts@.len() as int) =~= self.counts());
        }
        self.counts = kept;
    }

    fn set_count(&mut self, key: FileDisc, count: usize)
        ensures
            final(self).counts() == with_entry(old(self).counts(), key@, count),
            final(self).links() == old(self).links(),
    {
        self.drop_count(&key);
        let ghost before = self.counts();
        self.counts.push((key, count));
        proof {
            assert(self.counts() =~= before.push((key@, count)));
        }
    }
}

/// The root directory as the path layer writes it.
pub const ROOT_DIR: &'static str = "./";

/// Where the compiler's own header directory appears in the file tree.
pub const GCC_INCLUDE: &'static str = "./riscv64-linux-musl-native/lib/gcc/riscv64-linux-musl/11.2.1/include/";

/// Where names under `GCC_INCLUDE` are looked up instead.
pub const GCC_LINK_INCLUDE: &'static str = "/riscv64-linux-musl-native/include/";

/// Index of the last `/` in `s`, if there is one.
pub open spec fn last_slash(s: Seq<char>) -> Option<int>
    decreases s.len(),
{
    if s.len() == 0 {
        None
    } else if s.last() == '/' {
        Some(s.len() - 1)
    } else {
        last_slash(s.drop_last())
    }
}

/// The name that a link query for `(path, file)` looks up. An empty file
/// name means that `path` names a directory: the root stands for itself,
/// any other directory `.../dir/` is looked up as file `dir` in `.../`.
pub open spec fn link_query(path: Seq<char>, file: Seq<char>) -> Option<Name> {
    if file.len() > 0 {
        Some((path, file))
    } else if path == ROOT_DIR@ {
        Some((path, ROOT_DIR@))
    } else if path.len() == 0 {
        None
    } else {
        let p = path.drop_last();
        match last_slash(p) {
            Some(k) => Some((p.take(k + 1), p.skip(k + 1))),
            None => None,
        }
    }
}

/// What `read_link` answers: the full name that the queried name links to,
/// or for a name under the compiler's header directory the same name under
/// `GCC_LINK_INCLUDE`.
pub open spec fn link_of(links: Seq<(Name, Name)>, path: Seq<char>, file: Seq<char>) -> Option<
    Seq<char>,
> {
    match link_query(path, file) {
        None => None,
        Some(q) => match find_in(links, q) {
            Some(t) => Some(t.0 + t.1),
            None => if GCC_INCLUDE@.is_prefix_of(q.0) {
                Some(GCC_LINK_INCLUDE@ + q.0.skip(GCC_INCLUDE@.len() as int) + q.1)
            } else {
                None
            },
        },
    }
}

fn has_prefix(s: &str, prefix: &str) -> (r: bool)
    ensures
        r == prefix@.is_prefix_of(s@),
{
    let n = prefix.unicode_len();
    if n > s.unicode_len() {
        return false;
    }
    let mut i: usize = 0;
    while i < n
        invariant
            i <= n == prefix@.len() <= s@.len(),
            forall|j: int| 0 <= j < i ==> prefix@[j] == s@[j],
        decreases n - i,
    {
        if prefix.get_char(i) != s.get_char(i) {
            return false;
        }
        i += 1;
    }
    proof {
        assert(prefix@ =~= s@.subrange(0, prefix@.len() as int));
    }
    true
}

fn find_last_slash(s: &str) -> (r: Option<usize>)
    ensures
        match r {
            Some(k) => last_slash(s@) == Some(k as int) && k < s@.len(),
            None => last_slash(s@) is None,
        },
{
    let mut i: usize = s.unicode_len();
    proof {
        assert(s@.take(i as int) =~= s@);
    }
    while i > 0
        invariant
            i <= s@.len(),
            last_slash(s@) == last_slash(s@.take(i as int)),
        decreases i,
    {
        proof {
            assert(s@.take(i as int).drop_last() =~= s@.take(i - 1));
        }
        if s.get_char(i - 1) == '/' {
            return Some(i - 1);
        }
        i -= 1;
    }
    proof {
        assert(s@.take(0) =~= Seq::<char>::empty());
    }
    None
}

/// Whether `s` ends in `/.` or `/..`, that is names a directory through a
/// dot entry.
pub open spec fn ends_in_dot_entry(s: Seq<char>) -> bool {
    (s.len() >= 2 && s.subrange(s.len() - 2, s.len() as int) == seq!['/', '.']) || (s.len() >= 3
        && s.subrange(s.len() - 3, s.len() as int) == seq!['/', '.', '.'])
}

/// The file name that a link query hands to the path layer: one that ends in
/// `/.` or `/..` names a directory and gets a trailing `/`; any other stays.
/// The path layer maps the result, and `read_link` takes what it gives.
pub fn link_file_name(file: &str) -> (r: String)
    ensures
        r@ == if ends_in_dot_entry(file@) {
            file@.push('/')
        } else {
            file@
        },
{
    let n = file.unicode_len();
    let two = n >= 2 && file.get_char(n - 2) == '/' && file.get_char(n - 1) == '.';
    let three = n >= 3 && file.get_char(n - 3) == '/' && file.get_char(n - 2) == '.'
        && file.get_char(n - 1) == '.';
    proof {
        if n >= 2 {
            assert(two == (file@.subrange(n - 2, n as int) =~= seq!['/', '.']));
        }
        if n >= 3 {
            assert(three == (file@.subrange(n - 3, n as int) =~= seq!['/', '.', '.']));
        }
    }
    let r = String::from_str(file);
    if two || three {
        let mut r = r;
        r.append("/");
        proof {
            reveal_strlit("/");
            assert(r@ =~= file@.push('/'));
        }
        r
    } else {
        r
    }
}

/// Reads the link of `(path, file)`, a name as the path layer mapped it:
/// the full name it links to, if any.
pub fn read_link(table: &LinkTable, path: String, file: String) -> (r: Option<String>)
    ensures
        match r {
            Some(t) => link_of(table.links(), path@, file@) == Some(t@),
            None => link_of(table.links(), path@, file@) is None,
        },
{
    proof {
        reveal_strlit("./");
    }
    let plen = path.as_str().unicode_len();
    let (qpath, qfile) = if file.as_str().unicode_len() > 0 {
        (path, file)
    } else if path == String::from_str(ROOT_DIR) {
        (path, String::from_str(ROOT_DIR))
    } else if plen == 0 {
        return None;
    } else {
        let p = path.as_str().substring_char(0, plen - 1);
        match find_last_slash(p) {
            None => {
                return None;
            },
            Some(k) => {
                proof {
                    assert(p@ == path@.drop_last());
                }
                (String::from_str(p.substring_char(0, k + 1)), String::from_str(
                    p.substring_char(k + 1, plen - 1),
                ))
            },
        }
    };
    let key = FileDisc { path: qpath, file: qfile };
    proof {
        assert(link_query(path@, file@) == Some(key@));
    }
    match table.find_link(&key) {
        Some(t) => Some(t.path.concat(t.file.as_str())),
        None => {
            if has_prefix(key.path.as_str(), GCC_INCLUDE) {
                let rest = key.path.as_str().substring_char(
                    GCC_INCLUDE.unicode_len(),
                    key.path.as_str().unicode_len(),
                );
                let linked = String::from_str(GCC_LINK_INCLUDE).concat(rest).concat(
                    key.file.as_str(),
                );
                proof {
                    assert(rest@ == key.path@.skip(GCC_INCLUDE@.len() as int));
                }
                Some(linked)
            } else {
                None
            }
        },
    }
}

/// A link count raised by one, held at `usize::MAX`.
pub open spec fn raised(c: usize) -> usize {
    if c < usize::MAX {
        (c + 1) as usize
    } else {
        c
    }
}

/// The link entries after user name `user` is made to lead to target file
/// `target`. A name linked for the first time makes the target file lead to
/// itself too, so that the two names cannot be told apart.
pub open spec fn links_after_add(links: Seq<(Name, Name)>, target: Name, user: Name) -> Seq<
    (Name, Name),
> {
    if find_in(links, user) is Some {
        with_entry(links, user, target)
    } else {
        with_entry(with_entry(links, user, target), target, target)
    }
}

/// The count entries after one more name leads to target file `target`.
pub open spec fn counts_after_add(counts: Seq<(Name, usize)>, target: Name) -> Seq<(Name, usize)> {
    with_entry(counts, target, raised(count_of(counts, target)))
}

/// What the caller does after `try_remove_link`.
#[derive(Debug, Clone, Copy, PartialEq, Eq, Structural)]
pub enum Unlink {
    /// No such file or directory: nothing changed.
    Refused,
    /// One name fewer leads to the file, which stays.
    Unlinked,
    /// The last name went, or the name was a directory: remove the target file.
    Remove,
}

/// Resolves a name through the link table: its target if it is a link,
/// else the name itself.
pub fn parse_file_name(table: &LinkTable, name: (String, String)) -> (r: (String, String))
    ensures
        (r.0@, r.1@) == resolve(table.links(), (name.0@, name.1@)),
{
    let key = FileDisc { path: name.0, file: name.1 };
    match table.find_link(&key) {
        Some(t) => (t.path, t.file),
        None => (key.path, key.file),
    }
}

/// Records that user name `(user_path, user_file)` leads to target file
/// `(real_path, real_file)`, and counts one more name on the target file.
fn add_link(
    table: &mut LinkTable,
    real_path: String,
    real_file: String,
    user_path: String,
    user_file: String,
)
    ensures
        final(table).links() == links_after_add(
            old(table).links(),
            (real_path@, real_file@),
            (user_path@, user_file@),
        ),
        final(table).counts() == counts_after_add(old(table).counts(), (real_path@, real_file@)),
{
    let key = FileDisc { path: user_path, file: user_file };
    let value = FileDisc { path: real_path, file: real_file };
    let count = match table.find_count(&value) {
        Some(c) => c,
        None => 1,
    };
    let raised_count = if count < usize::MAX {
        count + 1
    } else {
        count
    };
    table.set_count(value.duplicate(), raised_count);
    match table.find_link(&key) {
        Some(_) => {
            table.set_link(key, value);
        },
        None => {
            let target = value.duplicate();
            table.set_link(key, target);
            let own = value.duplicate();
            table.set_link(own, value);
        },
    }
}

/// Adds a hard link: the new name `(new_path, new_file)` leads to the file
/// of the old name `(old_path, old_file)`. Both names come as the path layer
/// split them and are resolved through the table first; `old_exists` and
/// `new_exists` tell whether a file exists under each resolved name. Fails,
/// changing nothing, unless the old file exists and the new one does not.
pub fn try_add_link(
    table: &mut LinkTable,
    old_path: String,
    old_file: &str,
    new_path: String,
    new_file: &str,
    old_exists: bool,
    new_exists: bool,
) -> (r: bool)
    ensures
        r == (old_exists && !new_exists),
        r ==> final(table).links() == links_after_add(
            old(table).links(),
            resolve(old(table).links(), (old_path@, old_file@)),
            resolve(old(table).links(), (new_path@, new_file@)),
        ),
        r ==> final(table).counts() == counts_after_add(
            old(table).counts(),
            resolve(old(table).links(), (old_path@, old_file@)),
        ),
        !r ==> final(table).links() == old(table).links() && final(table).counts() == old(table).counts(),
{
    let (old_path, old_file) = parse_file_name(table, (old_path, String::from_str(old_file)));
    let (new_path, new_file) = parse_file_name(table, (new_path, String::from_str(new_file)));
    if old_exists && !new_exists {
        add_link(table, old_path, old_file, new_path, new_file);
        return true;
    }
    false
}

/// `try_add_link` with the two names the other way round: the link first,
/// then the file it leads to.
pub fn try_add_rev_link(
    table: &mut LinkTable,
    new_path: String,
    new_file: &str,
    old_path: String,
    old_file: &str,
    new_exists: bool,
    old_exists: bool,
) -> (r: bool)
    ensures
        r == (old_exists && !new_exists),
        r ==> final(table).links() == links_after_add(
            old(table).links(),
            resolve(old(table).links(), (old_path@, old_file@)),
            resolve(old(table).links(), (new_path@, new_file@)),
        ),
        r ==> final(table).counts() == counts_after_add(
            old(table).counts(),
            resolve(old(table).links(), (old_path@, old_file@)),
        ),
        !r ==> final(table).links() == old(table).links() && final(table).counts() == old(table).counts(),
{
    try_add_link(table, old_path, old_file, new_path, new_file, old_exists, new_exists)
}

/// The number of names that lead to the file of `(path, file)`; one for a
/// file that was never linked.
pub fn get_link_count(table: &LinkTable, path: String, file: &str) -> (r: usize)
    ensures
        r == count_of(table.counts(), resolve(table.links(), (path@, file@))),
{
    let (path, file) = parse_file_name(table, (path, String::from_str(file)));
    let key = FileDisc { path, file };
    match table.find_count(&key) {
        Some(c) => c,
        None => 1,
    }
}

/// Removes the name `(path, file)`. `(split_path, split_file)` is that name
/// as the path layer split it; it is resolved through the table. `file_exists`
/// tells whether a file exists under the resolved name, `dir_exists` whether
/// a directory does. A file loses one name and is to be removed when none is
/// left; a directory is to be removed at once, as directories have no links.
pub fn try_remove_link(
    table: &mut LinkTable,
    path: String,
    file: &str,
    split_path: String,
    split_file: String,
    file_exists: bool,
    dir_exists: bool,
) -> (r: Unlink)
    ensures
        ({
            let target = resolve(old(table).links(), (split_path@, split_file@));
            let count = count_of(old(table).counts(), target);
            &&& file_exists ==> final(table).links() == if find_in(old(table).counts(), target) is Some {
                without_key(old(table).links(), (path@, file@))
            } else {
                old(table).links()
            }
            &&& file_exists && count <= 1 ==> r == Unlink::Remove && final(table).counts()
                == without_key(old(table).counts(), target)
            &&& file_exists && count > 1 ==> r == Unlink::Unlinked && final(table).counts()
                == with_entry(old(table).counts(), target, (count - 1) as usize)
            &&& !file_exists ==> final(table).links() == old(table).links() && final(table).counts() == old(table).counts()
            &&& !file_exists && dir_exists ==> r == Unlink::Remove
            &&& !file_exists && !dir_exists ==> r == Unlink::Refused
        }),
{
    let key = FileDisc { path, file: String::from_str(file) };
    let (real_path, real_file) = parse_file_name(table, (split_path, split_file));
    if file_exists {
        let value = FileDisc { path: real_path, file: real_file };
        let recorded = table.find_count(&value);
        if recorded.is_some() {
            table.remove_link(&key);
        }
        let count = match recorded {
            Some(c) => c,
            None => 1,
        };
        if count <= 1 {
            table.drop_count(&value);
            Unlink::Remove
        } else {
            table.set_count(value, count - 1);
            Unlink::Unlinked
        }
    } else if dir_exists {
        Unlink::Remove
    } else {
        Unlink::Refused
    }
}

/// A device mounted as a file system on a directory.
pub struct MountedFs {
    pub device: String,
    pub mnt_dir: String,
}

impl MountedFs {
    /// Device `device` mounted on `mnt_dir`.
    pub fn new(device: &str, mnt_dir: &str) -> (r: Self)
        ensures
            r.device@ == device@,
            r.mnt_dir@ == mnt_dir@,
    {
        MountedFs { device: String::from_str(device), mnt_dir: String::from_str(mnt_dir) }
    }
}

/// The view of one mount: device and directory.
pub open spec fn mount_view(m: MountedFs) -> (Seq<char>, Seq<char>) {
    (m.device@, m.mnt_dir@)
}

/// The mounts of `s` that are not on directory `dir`, in order.
pub open spec fn without_dir(s: Seq<(Seq<char>, Seq<char>)>, dir: Seq<char>) -> Seq<
    (Seq<char>, Seq<char>),
>
    decreases s.len(),
{
    if s.len() == 0 {
        s
    } else if s.last().1 == dir {
        without_dir(s.drop_last(), dir)
    } else {
        without_dir(s.drop_last(), dir).push(s.last())
    }
}

/// The devices mounted besides the root file system, in mount order.
pub struct MountTable {
    mounted: Vec<MountedFs>,
}

impl MountTable {
    /// The mounts, as (device, directory), oldest first.
    pub closed spec fn mounts(&self) -> Seq<(Seq<char>, Seq<char>)> {
        self.mounted@.map_values(|m: MountedFs| mount_view(m))
    }

    /// A table with nothing mounted.
    pub fn new() -> (r: Self)
        ensures
            r.mounts() == Seq::<(Seq<char>, Seq<char>)>::empty(),
    {
        let r = MountTable { mounted: Vec::new() };
        proof {
            assert(r.mounts() =~= Seq::<(Seq<char>, Seq<char>)>::empty());
        }
        r
    }

    /// The mount at position `i`.
    pub fn get(&self, i: usize) -> (r: &MountedFs)
        requires
            i < self.mounts().len(),
        ensures
            mount_view(*r) == self.mounts()[i as int],
    {
        &self.mounted[i]
    }

    /// Number of mounts.
    pub fn len(&self) -> (r: usize)
        ensures
            r == self.mounts().len(),
    {
        self.mounted.len()
    }
}

/// Mounts the device file `(device_path, device_file)`, as the path layer
/// split it and resolved through the link table, on directory `mount_path`.
/// `mount_dir_exists` tells whether that directory exists; the mount fails,
/// changing nothing, where it does not.
pub fn mount_fat_fs(
    mounts: &mut MountTable,
    table: &LinkTable,
    device_path: String,
    device_file: &str,
    mount_path: String,
    mount_dir_exists: bool,
) -> (r: bool)
    ensures
        r == mount_dir_exists,
        r ==> final(mounts).mounts() == old(mounts).mounts().push(
            ({
                let d = resolve(table.links(), (device_path@, device_file@));
                (d.0 + d.1, mount_path@)
            }),
        ),
        !r ==> final(mounts).mounts() == old(mounts).mounts(),
{
    let (device_path, device_file) = parse_file_name(
        table,
        (device_path, String::from_str(device_file)),
    );
    if mount_dir_exists {
        let device = device_path.concat(device_file.as_str());
        let m = MountedFs::new(device.as_str(), mount_path.as_str());
        let ghost before = mounts.mounts();
        mounts.mounted.push(m);
        proof {
            assert(mounts.mounts() =~= before.push(mount_view(m)));
        }
        return true;
    }
    false
}

/// Unmounts every device mounted on directory `mount_path`; true if there
/// was one.
pub fn umount_fat_fs(mounts: &mut MountTable, mount_path: String) -> (r: bool)
    ensures
        final(mounts).mounts() == without_dir(old(mounts).mounts(), mount_path@),
        r == (final(mounts).mounts().len() < old(mounts).mounts().len()),
{
    let ghost all = mounts.mounts();
    let mut old_list: Vec<MountedFs> = Vec::new();
    core::mem::swap(&mut old_list, &mut mounts.mounted);
    let size_before = old_list.len();
    let mut kept: Vec<MountedFs> = Vec::new();
    let mut i: usize = 0;
    while i < old_list.len()
        invariant
            i <= old_list@.len(),
            all == old_list@.map_values(|m: MountedFs| mount_view(m)),
            kept@.map_values(|m: MountedFs| mount_view(m)) == without_dir(
                all.take(i as int),
                mount_path@,
            ),
            kept@.len() <= i,
        decreases old_list@.len() - i,
    {
        let ghost before = kept@.map_values(|m: MountedFs| mount_view(m));
        proof {
            assert(all.take(i + 1).drop_last() =~= all.take(i as int));
        }
        if old_list[i].mnt_dir != mount_path {
            let m = MountedFs::new(old_list[i].device.as_str(), old_list[i].mnt_dir.as_str());
            kept.push(m);
            proof {
                assert(kept@.map_values(|m: MountedFs| mount_view(m)) =~= before.push(all[i as int]));
            }
        }
        i += 1;
    }
    proof {
        assert(all.take(old_list@.len() as int) =~= all);
    }
    mounts.mounted = kept;
    mounts.mounted.len() < size_before
}

} // verus!
