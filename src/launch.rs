use vstd::prelude::*;

verus! {

/// The editors that the notes can be opened in.
#[derive(Clone, Copy, Debug, PartialEq, Eq, Structural)]
pub enum Editor {
    Vim,
    Cursor,
    VSCode,
}

/// Which notes file is meant: the work notes or the private ones.
#[derive(Clone, Copy, Debug, PartialEq, Eq, Structural)]
pub enum Profile {
    Work,
    Private,
}

/// The command that starts `e`.
pub open spec fn command_of(e: Editor) -> Seq<char> {
    match e {
        Editor::Vim => "nvim"@,
        Editor::Cursor => "cursor"@,
        Editor::VSCode => "code"@,
    }
}

/// The name of the notes file of `p`, in the home directory.
pub open spec fn file_name_of(p: Profile) -> Seq<char> {
    match p {
        Profile::Work => "notes.txt"@,
        Profile::Private => "notes-personal.txt"@,
    }
}

impl Editor {
    /// The command that starts this editor.
    pub fn command(&self) -> (r: &'static str)
        ensures
            r@ == command_of(*self),
    {
        match self {
            Editor::Vim => "nvim",
            Editor::Cursor => "cursor",
            Editor::VSCode => "code",
        }
    }
}

impl Profile {
    /// The profile that the private flag selects.
    pub fn from_private(private: bool) -> (r: Profile)
        ensures
            r == (if private {
                Profile::Private
            } else {
                Profile::Work
            }),
    {
        if private {
            Profile::Private
        } else {
            Profile::Work
        }
    }

    /// The name of this profile's notes file, in the home directory.
    pub fn file_name(&self) -> (r: &'static str)
        ensures
            r@ == file_name_of(*self),
    {
        match self {
            Profile::Work => "notes.txt",
            Profile::Private => "notes-personal.txt",
        }
    }
}

} // verus!
