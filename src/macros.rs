// Macro definitions, the directories where files are looked for, and file
// lookup.

use vstd::prelude::*;

use crate::error::Error;
use crate::text::concat;
use vstd::string::StringExecFns;

verus! {

/// `input` is an absolute path.
pub open spec fn is_absolute(input: Seq<char>) -> bool {
    input.len() > 0 && input[0] == '/'
}

/// `input` under the directory `dir`.
pub open spec fn joined(dir: Seq<char>, input: Seq<char>) -> Seq<char> {
    if dir.len() == 0 {
        input
    } else if dir.last() == '/' {
        dir + input
    } else {
        dir + seq!['/'] + input
    }
}

fn join(dir: &String, input: &str) -> (r: String)
    ensures
        r@ == joined(dir@, input@),
{
    let s = dir.as_str();
    let n = s.unicode_len();
    if n == 0 {
        input.to_owned()
    } else if s.get_char(n - 1) == '/' {
        concat(s, input)
    } else {
        proof {
            reveal_strlit("/");
        }
        let d = concat(s, "/");
        assert(d@ =~= dir@ + seq!['/']);
        concat(d.as_str(), input)
    }
}

/// `is_file` was asked about a path written `path` and answered no.
pub open spec fn refused<F: Fn(&String) -> bool>(is_file: F, path: Seq<char>) -> bool {
    exists|x: String| x@ == path && #[trigger] is_file.ensures((&x,), false)
}

/// The file that `input` names: itself where it is absolute, else its place
/// under the first directory of `paths` where `is_file` finds it; `NotFound`
/// when `is_file` refuses every candidate.
pub fn locate_file<F: Fn(&String) -> bool>(input: &str, paths: &Vec<String>, is_file: F) -> (r: Result<String, Error>)
    requires
        forall|s: &String| is_file.requires((s,)),
    ensures
        is_absolute(input@) ==> match r {
            Ok(f) => f@ == input@ && is_file.ensures((&f,), true),
            Err(e) => e == Error::NotFound && refused(is_file, input@),
        },
        !is_absolute(input@) ==> match r {
            Ok(f) => is_file.ensures((&f,), true) && exists|i: int|
                0 <= i < paths@.len() && f@ == joined(#[trigger] paths@[i]@, input@)
                    && forall|j: int| 0 <= j < i ==> refused(is_file, joined(#[trigger] paths@[j]@, input@)),
            Err(e) => e == Error::NotFound
                && forall|j: int| 0 <= j < paths@.len() ==> refused(is_file, joined(#[trigger] paths@[j]@, input@)),
        },
{
    let n = input.unicode_len();
    if n > 0 && input.get_char(0) == '/' {
        let f = input.to_owned();
        if is_file(&f) {
            Ok(f)
        } else {
            assert(refused(is_file, input@));
            Err(Error::NotFound)
        }
    } else {
        let mut i: usize = 0;
        while i < paths.len()
            invariant
                i <= paths@.len(),
                !is_absolute(input@),
                forall|s: &String| is_file.requires((s,)),
                forall|j: int| 0 <= j < i ==> refused(is_file, joined(#[trigger] paths@[j]@, input@)),
            decreases paths@.len() - i,
        {
            let f = join(&paths[i], input);
            if is_file(&f) {
                assert(f@ == joined(paths@[i as int]@, input@));
                return Ok(f);
            }
            assert(refused(is_file, joined(paths@[i as int]@, input@)));
            i = i + 1;
        }
        Err(Error::NotFound)
    }
}

/// Named bodies of expression text, and the directories where files of them
/// are looked for.
pub struct Macros {
    pub macros: Vec<(String, String)>,
    paths: Vec<String>,
}

impl Macros {
    /// The bodies by name; a later one of a name hides an earlier one.
    pub closed spec fn table(&self) -> Seq<(Seq<char>, Seq<char>)> {
        self.macros@.map_values(|p: (String, String)| (p.0@, p.1@))
    }

    pub closed spec fn path_list(&self) -> Seq<Seq<char>> {
        self.paths@.map_values(|p: String| p@)
    }

    pub fn new() -> (r: Macros)
        ensures
            r.table() == Seq::<(Seq<char>, Seq<char>)>::empty(),
            r.path_list() == Seq::<Seq<char>>::empty(),
    {
        let r = Macros { macros: Vec::new(), paths: Vec::new() };
        assert(r.table() =~= Seq::<(Seq<char>, Seq<char>)>::empty());
        assert(r.path_list() =~= Seq::<Seq<char>>::empty());
        r
    }

    /// Adds directories after those already known.
    pub fn add_paths(&mut self, new_paths: Vec<String>)
        ensures
            final(self).path_list() == old(self).path_list() + new_paths@.map_values(|p: String| p@),
            final(self).table() == old(self).table(),
    {
        let mut i: usize = 0;
        while i < new_paths.len()
            invariant
                i <= new_paths@.len(),
                self.paths@ == old(self).paths@ + new_paths@.subrange(0, i as int),
                self.macros == old(self).macros,
            decreases new_paths@.len() - i,
        {
            let c = new_paths[i].clone();
            assert(c@ == new_paths@[i as int]@);
            let ghost p0 = self.paths@;
            self.paths.push(c);
            assert(self.paths@ == p0.push(c));
            i = i + 1;
            assert(self.paths@ =~= old(self).paths@ + new_paths@.subrange(0, i as int));
        }
        assert(new_paths@.subrange(0, new_paths@.len() as int) =~= new_paths@);
        assert(self.path_list() =~= old(self).path_list() + new_paths@.map_values(|p: String| p@));
    }

    /// The directories where files are looked for.
    pub fn paths(&self) -> (r: &Vec<String>)
        ensures
            r@.map_values(|p: String| p@) == self.path_list(),
    {
        &self.paths
    }

    /// Defines `name` as `body`, hiding an earlier definition of it.
    pub fn insert(&mut self, name: String, body: String)
        ensures
            final(self).table() == old(self).table().push((name@, body@)),
            final(self).path_list() == old(self).path_list(),
    {
        self.macros.push((name, body));
        assert(self.table() =~= old(self).table().push((name@, body@)));
    }

    /// The body that `name` stands for.
    pub fn get(&self, name: &Vec<char>) -> (r: Option<&String>)
        ensures
            match r {
                Some(b) => macro_lookup(self.table(), name@) == Some(b@),
                None => macro_lookup(self.table(), name@) is None,
            },
    {
        let mut i: usize = self.macros.len();
        proof {
            assert(self.table().subrange(0, i as int) =~= self.table());
        }
        while i > 0
            invariant
                i <= self.macros@.len(),
                macro_lookup(self.table(), name@) == macro_lookup(self.table().subrange(0, i as int), name@),
            decreases i,
        {
            let ghost p = self.table().subrange(0, i as int);
            assert(p.drop_last() =~= self.table().subrange(0, i - 1));
            let key = &self.macros[i - 1].0;
            if same_chars(key, name) {
                return Some(&self.macros[i - 1].1);
            }
            i = i - 1;
        }
        None
    }
}

/// What `name` stands for in `table`: its last definition.
pub open spec fn macro_lookup(table: Seq<(Seq<char>, Seq<char>)>, name: Seq<char>) -> Option<Seq<char>>
    decreases table.len(),
{
    if table.len() == 0 {
        None
    } else if table.last().0 == name {
        Some(table.last().1)
    } else {
        macro_lookup(table.drop_last(), name)
    }
}

fn same_chars(s: &String, cs: &Vec<char>) -> (r: bool)
    ensures
        r == (s@ == cs@),
{
    let t = s.as_str();
    let n = t.unicode_len();
    if n != cs.len() {
        return false;
    }
    let mut i: usize = 0;
    while i < n
        invariant
            t@ == s@,
            n == s@.len(),
            n == cs@.len(),
            i <= n,
            forall|j: int| 0 <= j < i ==> s@[j] == cs@[j],
        decreases n - i,
    {
        if t.get_char(i) != cs[i] {
            return false;
        }
        i = i + 1;
    }
    assert(s@ =~= cs@);
    true
}

impl Macros {
    /// A copy of these macros and directories.
    pub fn copy(&self) -> (r: Macros)
        ensures
            r.table() == self.table(),
            r.path_list() == self.path_list(),
    {
        let mut m: Vec<(String, String)> = Vec::new();
        let mut i: usize = 0;
        assert(m@ =~= self.macros@.subrange(0, 0));
        while i < self.macros.len()
            invariant
                i <= self.macros@.len(),
                m@ == self.macros@.subrange(0, i as int),
            decreases self.macros@.len() - i,
        {
            let (a, b) = (self.macros[i].0.clone(), self.macros[i].1.clone());
            m.push((a, b));
            i = i + 1;
            assert(m@ =~= self.macros@.subrange(0, i as int));
        }
        let mut p: Vec<String> = Vec::new();
        let mut j: usize = 0;
        while j < self.paths.len()
            invariant
                j <= self.paths@.len(),
                m@ == self.macros@,
                p@ == self.paths@.subrange(0, j as int),
            decreases self.paths@.len() - j,
        {
            p.push(self.paths[j].clone());
            j = j + 1;
            assert(p@ =~= self.paths@.subrange(0, j as int));
        }
        assert(m@ =~= self.macros@);
        assert(p@ =~= self.paths@);
        Macros { macros: m, paths: p }
    }
}

/// The extension of a path: what follows the last `.` of its last component,
/// where that `.` is not the component's first character.
pub open spec fn extension_of(path: Seq<char>) -> Option<Seq<char>> {
    let start = last_slash_end(path);
    let name = path.subrange(start, path.len() as int);
    let dot = last_dot(name);
    if 0 < dot < name.len() {
        Some(name.subrange(dot + 1, name.len() as int))
    } else {
        None
    }
}

/// The position after the last `/` of `s`, or 0.
pub open spec fn last_slash_end(s: Seq<char>) -> int
    decreases s.len(),
{
    if s.len() == 0 {
        0
    } else if s.last() == '/' {
        s.len() as int
    } else {
        last_slash_end(s.drop_last())
    }
}

/// The position of the last `.` of `s`, or `s.len()`.
pub open spec fn last_dot(s: Seq<char>) -> int
    decreases s.len(),
{
    if s.len() == 0 {
        0
    } else if s.last() == '.' {
        s.len() - 1
    } else if last_dot(s.drop_last()) == s.len() - 1 {
        s.len() as int
    } else {
        last_dot(s.drop_last())
    }
}

/// The input must be a file with the extension `yaml`.
pub fn check_input_file(input: &str) -> (r: Result<(), Error>)
    ensures
        r is Ok <==> extension_of(input@) == Some("yaml"@),
        r matches Err(e) ==> e == Error::NotYaml,
{
    proof {
        reveal_strlit("yaml");
    }
    let cs = crate::text::chars_of(input);
    let mut start: usize = 0;
    let mut i: usize = 0;
    while i < cs.len()
        invariant
            i <= cs@.len(),
            start <= i,
            start == last_slash_end(cs@.subrange(0, i as int)),
        decreases cs@.len() - i,
    {
        assert(cs@.subrange(0, i + 1).drop_last() =~= cs@.subrange(0, i as int));
        if cs[i] == '/' {
            start = i + 1;
        }
        i = i + 1;
    }
    assert(cs@.subrange(0, cs@.len() as int) =~= cs@);
    let ghost name = cs@.subrange(start as int, cs@.len() as int);
    let mut dot: usize = 0;
    let mut found = false;
    let mut j: usize = start;
    assert(name.subrange(0, 0) =~= Seq::<char>::empty());
    while j < cs.len()
        invariant
            start <= j <= cs@.len(),
            name == cs@.subrange(start as int, cs@.len() as int),
            found ==> start <= dot < j && last_dot(name.subrange(0, j - start)) == dot - start,
            !found ==> last_dot(name.subrange(0, j - start)) == j - start,
        decreases cs@.len() - j,
    {
        let ghost p = name.subrange(0, j - start + 1);
        assert(p.drop_last() =~= name.subrange(0, j - start));
        assert(p.last() == cs@[j as int]);
        if cs[j] == '.' {
            dot = j;
            found = true;
        }
        j = j + 1;
    }
    assert(name.subrange(0, name.len() as int) =~= name);
    if found && dot > start {
        let ext_len = cs.len() - dot - 1;
        if ext_len == 4 && cs[dot + 1] == 'y' && cs[dot + 2] == 'a' && cs[dot + 3] == 'm' && cs[dot + 4] == 'l' {
            assert(name.subrange(dot - start + 1, name.len() as int) =~= "yaml"@);
            return Ok(());
        }
        assert(name.subrange(dot - start + 1, name.len() as int) != "yaml"@) by {
            let e = name.subrange(dot - start + 1, name.len() as int);
            if e.len() == 4 {
                assert(e[0] == cs@[dot + 1]);
                assert(e[1] == cs@[dot + 2]);
                assert(e[2] == cs@[dot + 3]);
                assert(e[3] == cs@[dot + 4]);
            }
        }
    }
    Err(Error::NotYaml)
}

} // verus!
