use vstd::prelude::*;
use crate::config::Config;
use crate::dependency::{extension, texts};
use crate::text::{str_chars, string_of};

verus! {

/// The source tree of a project.
pub struct DirStructure {
    /// Extensions of source files.
    src_extensions: Vec<String>,
    /// The source files found, each of which gives one object file.
    src_files: Vec<String>,
    src_root: String,
}

/// The extensions of source files.
pub open spec fn source_extensions() -> Seq<Seq<char>> {
    seq!["c"@, "C"@, "cc"@, "cpp"@, "CPP"@, "c++"@, "cp"@, "cxx"@]
}

/// Whether a path is that of a source file.
pub open spec fn is_source_path(p: Seq<char>) -> bool {
    extension(p) is Some && source_extensions().contains(extension(p)->Some_0)
}

/// The source files among a list of files, in order.
pub open spec fn sources_among(found: Seq<String>) -> Seq<Seq<char>>
    decreases found.len(),
{
    if found.len() == 0 {
        seq![]
    } else {
        let rest = sources_among(found.drop_last());
        if is_source_path(found.last()@) {
            rest.push(found.last()@)
        } else {
            rest
        }
    }
}

impl DirStructure {
    pub closed spec fn sources(&self) -> Seq<Seq<char>> {
        texts(self.src_files@)
    }

    pub closed spec fn root(&self) -> Seq<char> {
        self.src_root@
    }

    pub closed spec fn extensions(&self) -> Seq<Seq<char>> {
        texts(self.src_extensions@)
    }

    /// The source tree of the chosen profile.
    pub fn from_config(conf: &Config, release: bool) -> (r: DirStructure)
        ensures
            r.root() == if release {
                conf.release_build.compiler_conf.src_root@
            } else {
                conf.debug_build.compiler_conf.src_root@
            },
            r.sources().len() == 0,
            r.extensions() == source_extensions(),
    {
        if release {
            DirStructure::new(conf.release_build.compiler_conf.src_root.clone())
        } else {
            DirStructure::new(conf.debug_build.compiler_conf.src_root.clone())
        }
    }

    /// The source tree at `src_root`, with no files found yet.
    pub fn new(src_root: String) -> (r: DirStructure)
        ensures
            r.root() == src_root@,
            r.sources().len() == 0,
            r.extensions() == source_extensions(),
    {
        let exts = vec![
            String::from_str("c"),
            String::from_str("C"),
            String::from_str("cc"),
            String::from_str("cpp"),
            String::from_str("CPP"),
            String::from_str("c++"),
            String::from_str("cp"),
            String::from_str("cxx"),
        ];
        let r = DirStructure { src_extensions: exts, src_files: Vec::new(), src_root };
        assert(texts(r.src_extensions@) =~= source_extensions());
        assert(texts(r.src_files@) =~= Seq::<Seq<char>>::empty());
        r
    }

    fn has_source_extension(&self, p: &String) -> (r: bool)
        requires
            self.extensions() == source_extensions(),
        ensures
            r == is_source_path(p@),
    {
        let pc = str_chars(p.as_str());
        let ev = crate::dependency::extension_of(&pc);
        let e = match &ev {
            Some(v) => string_of(v),
            None => {
                return false;
            },
        };
        assert(e@ == extension(p@)->Some_0);
        assert(extension(p@) is Some);
        let mut i: usize = 0;
        while i < self.src_extensions.len()
            invariant
                i <= self.src_extensions@.len(),
                self.extensions() == source_extensions(),
                forall|j: int| 0 <= j < i ==> self.src_extensions@[j]@ != e@,
                extension(p@) is Some,
                e@ == extension(p@)->Some_0,
            decreases self.src_extensions@.len() - i,
        {
            if self.src_extensions[i] == e {
                assert(texts(self.src_extensions@)[i as int] == e@);
                assert(source_extensions()[i as int] == e@);
                assert(source_extensions().contains(e@));
                assert(extension(p@) is Some);
                return true;
            }
            i += 1;
        }
        proof {
            if source_extensions().contains(e@) {
                let j = choose|j: int| 0 <= j < source_extensions().len() && source_extensions()[j] == e@;
                assert(texts(self.src_extensions@)[j] == e@);
            }
        }
        false
    }

    /// Keeps, of the regular files found under the source root, those with a
    /// source extension, in order.
    pub fn analyze(&mut self, found: Vec<String>)
        requires
            old(self).extensions() == source_extensions(),
        ensures
            final(self).sources() == sources_among(found@),
            final(self).root() == old(self).root(),
            final(self).extensions() == old(self).extensions(),
    {
        self.src_files = Vec::new();
        let mut i: usize = 0;
        assert(found@.subrange(0, 0) =~= Seq::<String>::empty());
        assert(texts(self.src_files@) =~= Seq::<Seq<char>>::empty());
        while i < found.len()
            invariant
                i <= found@.len(),
                self.extensions() == source_extensions(),
                self.root() == old(self).root(),
                self.extensions() == old(self).extensions(),
                texts(self.src_files@) == sources_among(found@.subrange(0, i as int)),
            decreases found@.len() - i,
        {
            assert(found@.subrange(0, i + 1).drop_last() =~= found@.subrange(0, i as int));
            let ghost before = self.src_files@;
            if self.has_source_extension(&found[i]) {
                self.src_files.push(found[i].clone());
                assert(texts(self.src_files@) =~= texts(before).push(found@[i as int]@));
            }
            i += 1;
        }
        assert(found@.subrange(0, found@.len() as int) =~= found@);
    }

    /// The source files found.
    pub fn srcs(&self) -> (r: &Vec<String>)
        ensures
            texts(r@) == self.sources(),
    {
        &self.src_files
    }
}

} // verus!
