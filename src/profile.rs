//! A single profile: a unique name and a reference to a theme file.
use vstd::prelude::*;
use vstd::string::StrSliceExecFns;

verus! {

/// A named configuration entry that refers to a theme resource.
#[derive(Clone, Debug)]
pub struct Profile {
    pub name: String,
    pub theme_ref: String,
}

/// The mathematical value of a [`Profile`].
pub struct ProfileView {
    pub name: Seq<char>,
    pub theme_ref: Seq<char>,
}

impl View for Profile {
    type V = ProfileView;

    open spec fn view(&self) -> ProfileView {
        ProfileView { name: self.name@, theme_ref: self.theme_ref@ }
    }
}

/// The values of a sequence of profiles.
pub open spec fn views(v: Seq<Profile>) -> Seq<ProfileView> {
    v.map_values(|p: Profile| p@)
}

/// The characters of Unicode's White_Space property, which `char::is_whitespace`
/// and `str::trim` go by.
pub open spec fn is_white_space(c: char) -> bool {
    let u = c as u32;
    ||| 0x09 <= u <= 0x0D
    ||| u == 0x20
    ||| u == 0x85
    ||| u == 0xA0
    ||| u == 0x1680
    ||| 0x2000 <= u <= 0x200A
    ||| u == 0x2028
    ||| u == 0x2029
    ||| u == 0x202F
    ||| u == 0x205F
    ||| u == 0x3000
}

/// A name is blank when all its characters are white space (the empty name
/// included).
pub open spec fn is_blank(name: Seq<char>) -> bool {
    forall|i: int| 0 <= i < name.len() ==> is_white_space(#[trigger] name[i])
}

/// Whether `c` is a white-space character.
pub fn char_is_white_space(c: char) -> (r: bool)
    ensures
        r == is_white_space(c),
{
    let u = c as u32;
    (0x09 <= u && u <= 0x0D) || u == 0x20 || u == 0x85 || u == 0xA0 || u == 0x1680 || (0x2000 <= u
        && u <= 0x200A) || u == 0x2028 || u == 0x2029 || u == 0x202F || u == 0x205F || u == 0x3000
}

/// Whether some entry of `e` is named `name`.
pub open spec fn has_name(e: Seq<ProfileView>, name: Seq<char>) -> bool {
    exists|i: int| 0 <= i < e.len() && #[trigger] e[i].name == name
}

/// No two entries share a name.
pub open spec fn names_unique(e: Seq<ProfileView>) -> bool {
    forall|i: int, j: int| 0 <= i < e.len() && 0 <= j < e.len() && i != j ==> #[trigger] e[i].name != #[trigger] e[j].name
}

/// What a store may hold: unique names, none of them blank.
pub open spec fn well_formed(e: Seq<ProfileView>) -> bool {
    &&& names_unique(e)
    &&& forall|i: int| 0 <= i < e.len() ==> !is_blank(#[trigger] e[i].name)
}

impl Profile {
    /// A profile with the given name and theme reference.
    pub fn new(name: String, theme_ref: String) -> (r: Profile)
        ensures
            r@ == (ProfileView { name: name@, theme_ref: theme_ref@ }),
    {
        Profile { name, theme_ref }
    }

    /// A copy of this profile.
    pub fn copy(&self) -> (r: Profile)
        ensures
            r@ == self@,
    {
        Profile { name: self.name.clone(), theme_ref: self.theme_ref.clone() }
    }

    /// Whether the name is blank: empty, or white space only.
    pub fn name_is_blank(&self) -> (r: bool)
        ensures
            r == is_blank(self.name@),
    {
        let name = self.name.as_str();
        let n = name.unicode_len();
        let mut i: usize = 0;
        while i < n
            invariant
                name@ == self.name@,
                n == name@.len(),
                0 <= i <= n,
                forall|k: int| 0 <= k < i ==> is_white_space(#[trigger] name@[k]),
            decreases n - i,
        {
            if !char_is_white_space(name.get_char(i)) {
                return false;
            }
            i = i + 1;
        }
        true
    }
}

} // verus!
