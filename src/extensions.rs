use vstd::prelude::*;

use crate::names::ext_of;

verus! {

/// What `str::to_lowercase` makes of a string.
pub uninterp spec fn lower_of(s: Seq<char>) -> Seq<char>;

/// Relies on `str::to_lowercase`: the result depends on the characters alone.
#[verifier::external_body]
fn lowercase(s: &str) -> (r: String)
    ensures
        r@ == lower_of(s@),
{
    s.to_lowercase()
}

/// The set of lower-case extensions that mark a file as managed media.
pub struct ExtensionSet {
    exts: Vec<String>,
}

impl View for ExtensionSet {
    type V = Set<Seq<char>>;

    closed spec fn view(&self) -> Set<Seq<char>> {
        Set::new(|x: Seq<char>| exists|i: int| 0 <= i < self.exts@.len() && self.exts@[i]@ == x)
    }
}

/// A file name is managed when its lower-cased extension is in the set.
pub open spec fn is_managed_spec(name: Seq<char>, exts: Set<Seq<char>>) -> bool {
    exts.contains(lower_of(ext_of(name)))
}

impl ExtensionSet {
    /// A set holding exactly the given extensions.
    pub fn new(exts: Vec<String>) -> (r: ExtensionSet)
        ensures
            forall|x: Seq<char>| r@.contains(x) <==> exists|i: int| 0 <= i < exts@.len() && exts@[i]@ == x,
    {
        ExtensionSet { exts }
    }

    /// Whether `ext` is one of the set's extensions (compared exactly).
    pub fn contains(&self, ext: &str) -> (r: bool)
        ensures
            r == self@.contains(ext@),
    {
        let target: String = ext.to_owned();
        let mut i: usize = 0;
        while i < self.exts.len()
            invariant
                i <= self.exts@.len(),
                target@ == ext@,
                forall|t: int| 0 <= t < i ==> self.exts@[t]@ != ext@,
            decreases self.exts@.len() - i,
        {
            if self.exts[i] == target {
                return true;
            }
            i = i + 1;
        }
        false
    }
}

/// The media extensions managed by default: gif, jpg, jpeg, png, cr2, nef,
/// mov and mp4.
pub fn _get_image_extensions() -> (r: ExtensionSet)
    ensures
        forall|x: Seq<char>| r@.contains(x) <==> (x == "cr2"@ || x == "gif"@ || x == "jpg"@
            || x == "jpeg"@ || x == "mov"@ || x == "mp4"@ || x == "nef"@ || x == "png"@),
{
    let names = ["cr2", "gif", "jpg", "jpeg", "mov", "mp4", "nef", "png"];
    let mut v: Vec<String> = Vec::new();
    let mut i: usize = 0;
    while i < 8
        invariant
            i <= 8,
            v@.len() == i,
            forall|t: int| 0 <= t < i ==> #[trigger] v@[t]@ == names@[t]@,
        decreases 8 - i,
    {
        v.push(names[i].to_owned());
        i = i + 1;
    }
    let r = ExtensionSet::new(v);
    assert forall|x: Seq<char>| r@.contains(x) <==> (x == "cr2"@ || x == "gif"@ || x == "jpg"@
            || x == "jpeg"@ || x == "mov"@ || x == "mp4"@ || x == "nef"@ || x == "png"@) by {
        assert(v@[0]@ == "cr2"@);
        assert(v@[1]@ == "gif"@);
        assert(v@[2]@ == "jpg"@);
        assert(v@[3]@ == "jpeg"@);
        assert(v@[4]@ == "mov"@);
        assert(v@[5]@ == "mp4"@);
        assert(v@[6]@ == "nef"@);
        assert(v@[7]@ == "png"@);
    }
    r
}

/// Whether `name` is a managed media file: its extension, lower-cased, is in
/// `exts`.
pub fn is_managed(name: &str, exts: &ExtensionSet) -> (r: bool)
    ensures
        r == is_managed_spec(name@, exts@),
{
    let ext = crate::names::_get_file_extension(name);
    let lowered = lowercase(ext.as_str());
    exts.contains(lowered.as_str())
}

} // verus!
