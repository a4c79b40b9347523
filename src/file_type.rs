use vstd::prelude::*;

verus! {

/// The language of a source file.
#[derive(Debug, Copy, Clone, PartialEq, Eq, Structural)]
pub enum Language {
    C,
    Cpp,
}

/// What role a file plays in a build.
#[derive(Debug, Copy, Clone, PartialEq, Eq, Structural)]
pub enum FileState {
    Source,
    SourceModule,
    Header,
    Precompiled,
    Object,
    Executable,
}

/// A file's language together with its role.
#[derive(Debug, Copy, Clone, PartialEq, Eq, Structural)]
pub struct FileType {
    pub lang: Language,
    pub state: FileState,
}

/// The type that a file extension (without the dot) stands for.
pub open spec fn ext_type(ext: Seq<char>) -> Option<FileType> {
    if ext == seq!['c'] {
        Some(FileType { lang: Language::C, state: FileState::Source })
    } else if ext == seq!['C'] || ext == seq!['c', 'c'] || ext == seq!['c', 'p', 'p']
        || ext == seq!['C', 'P', 'P'] || ext == seq!['c', '+', '+'] || ext == seq!['c', 'p']
        || ext == seq!['c', 'x', 'x'] {
        Some(FileType { lang: Language::Cpp, state: FileState::Source })
    } else if ext == seq!['h'] {
        Some(FileType { lang: Language::C, state: FileState::Header })
    } else if ext == seq!['H'] || ext == seq!['h', 'h'] || ext == seq!['h', 'p', 'p']
        || ext == seq!['h', 'x', 'x'] || ext == seq!['h', '+', '+'] {
        Some(FileType { lang: Language::Cpp, state: FileState::Header })
    } else {
        None
    }
}

impl FileType {
    /// The file type of a file with the extension `ext`.
    pub fn from_ext(ext: &str) -> (r: Option<FileType>)
        ensures
            r == ext_type(ext@),
    {
        let e = crate::text::str_chars(ext);
        let m0_0 = crate::text::chars_eq1(&e, 'c');
        assert(m0_0 == (e@ == seq!['c']));
        let m1_0 = crate::text::chars_eq1(&e, 'C');
        assert(m1_0 == (e@ == seq!['C']));
        let m1_1 = crate::text::chars_eq(&e, &vec!['c', 'c']);
        assert(m1_1 == (e@ == seq!['c', 'c']));
        let m1_2 = crate::text::chars_eq(&e, &vec!['c', 'p', 'p']);
        assert(m1_2 == (e@ == seq!['c', 'p', 'p']));
        let m1_3 = crate::text::chars_eq(&e, &vec!['C', 'P', 'P']);
        assert(m1_3 == (e@ == seq!['C', 'P', 'P']));
        let m1_4 = crate::text::chars_eq(&e, &vec!['c', '+', '+']);
        assert(m1_4 == (e@ == seq!['c', '+', '+']));
        let m1_5 = crate::text::chars_eq(&e, &vec!['c', 'p']);
        assert(m1_5 == (e@ == seq!['c', 'p']));
        let m1_6 = crate::text::chars_eq(&e, &vec!['c', 'x', 'x']);
        assert(m1_6 == (e@ == seq!['c', 'x', 'x']));
        let m2_0 = crate::text::chars_eq1(&e, 'h');
        assert(m2_0 == (e@ == seq!['h']));
        let m3_0 = crate::text::chars_eq1(&e, 'H');
        assert(m3_0 == (e@ == seq!['H']));
        let m3_1 = crate::text::chars_eq(&e, &vec!['h', 'h']);
        assert(m3_1 == (e@ == seq!['h', 'h']));
        let m3_2 = crate::text::chars_eq(&e, &vec!['h', 'p', 'p']);
        assert(m3_2 == (e@ == seq!['h', 'p', 'p']));
        let m3_3 = crate::text::chars_eq(&e, &vec!['h', 'x', 'x']);
        assert(m3_3 == (e@ == seq!['h', 'x', 'x']));
        let m3_4 = crate::text::chars_eq(&e, &vec!['h', '+', '+']);
        assert(m3_4 == (e@ == seq!['h', '+', '+']));
        if m0_0 {
            Some(FileType { lang: Language::C, state: FileState::Source })
        } else if m1_0 || m1_1 || m1_2 || m1_3 || m1_4 || m1_5 || m1_6 {
            Some(FileType { lang: Language::Cpp, state: FileState::Source })
        } else if m2_0 {
            Some(FileType { lang: Language::C, state: FileState::Header })
        } else if m3_0 || m3_1 || m3_2 || m3_3 || m3_4 {
            Some(FileType { lang: Language::Cpp, state: FileState::Header })
        } else {
            None
        }
    }
}

} // verus!
