//! What a caller asks for: one constant, made from a template and the
//! documents that may be substituted for parts of it.

use vstd::prelude::*;
use std::path::PathBuf;
use crate::paths::{path_as_text, path_text};

verus! {

/// A path to a document that may be merged onto the template, with an
/// optional use override.
#[derive(Clone, Debug)]
pub struct UsePath {
    pub path: String,
    /// Manual use override
    pub is_used: bool,
}

/// The description of one constant.
#[derive(Clone, Debug)]
pub struct MacroInput {
    /// Whether all datetime values are converted to their unwrapped equivalents
    pub destructure_datetime: bool,
    /// Whether the item is public
    pub is_pub: bool,
    /// `false` if static, `true` if const
    pub static_const: bool,
    /// Item identifier
    pub item_ident: String,
    /// `final` marks if the input file can be substituted
    pub is_final: bool,
    /// Path to the template file, mandatory
    pub path: String,
    /// Any optional paths to substitute over the first path
    pub sub_paths: Option<Vec<UsePath>>,
}

/// The descriptions of several constants.
#[derive(Clone, Debug)]
pub struct MultipleMacroInput(pub Vec<MacroInput>);

/// The text of the path that `Path::join` makes of a path and a text, where
/// that path is valid Unicode.
pub uninterp spec fn joined_text(base: &PathBuf, relative: Seq<char>) -> Option<Seq<char>>;

/// `Path::join` of std: the path `base` with `relative` added to it, or
/// `relative` itself where that is absolute.  The join looks at the two
/// paths alone, so its text is a function of them.
#[verifier::external_body]
fn join(base: &PathBuf, relative: &str) -> (joined: PathBuf)
    ensures
        path_text(&joined) == joined_text(base, relative@),
{
    base.join(relative)
}

/// Whether two inputs agree in all but their paths.
pub open spec fn same_but_paths(a: MacroInput, b: MacroInput) -> bool {
    &&& a.destructure_datetime == b.destructure_datetime
    &&& a.is_pub == b.is_pub
    &&& a.static_const == b.static_const
    &&& a.item_ident@ == b.item_ident@
    &&& a.is_final == b.is_final
    &&& match (a.sub_paths, b.sub_paths) {
        (Some(x), Some(y)) => x.len() == y.len() && forall|i: int|
            0 <= i < x.len() ==> (#[trigger] x[i]).is_used == y[i].is_used,
        (None, None) => true,
        _ => false,
    }
}

impl MacroInput {
    /// A final input accepts no substitutions.
    pub open spec fn well_formed(self) -> bool {
        !(self.is_final && self.sub_paths is Some)
    }

    /// Whether the input is well-formed: a final input has no substitutions.
    pub fn is_well_formed(&self) -> (ok: bool)
        ensures
            ok == self.well_formed(),
    {
        !(self.is_final && self.sub_paths.is_some())
    }

    /// Create a copy of `self` with all inner paths joined onto the base
    /// path, which must be absolute for them to become absolute.  There is no
    /// result where a joined path is not valid Unicode.
    pub fn to_abs_path(&self, base_path: &PathBuf) -> (absolute: Option<Self>)
        ensures
            match absolute {
                Some(input) => {
                    &&& same_but_paths(*self, input)
                    &&& joined_text(base_path, self.path@) == Some(input.path@)
                    &&& self.sub_paths matches Some(sp) ==> forall|i: int|
                        0 <= i < sp.len() ==> joined_text(base_path, (#[trigger] sp[i]).path@)
                            == Some(input.sub_paths->Some_0[i].path@)
                },
                None => joined_text(base_path, self.path@) is None || (self.sub_paths matches Some(
                    sp,
                ) && exists|i: int|
                    0 <= i < sp.len() && joined_text(base_path, (#[trigger] sp[i]).path@) is None),
            },
    {
        let joined = join(base_path, self.path.as_str());
        let template = match path_as_text(&joined) {
            Some(text) => Some(text.to_owned()),
            None => None,
        };
        let subs = match &self.sub_paths {
            Some(sp) => {
                let mut texts: Vec<(Option<String>, bool)> = Vec::new();
                let mut i: usize = 0;
                while i < sp.len()
                    invariant
                        i <= sp.len(),
                        texts.len() == i,
                        forall|j: int|
                            0 <= j < i ==> (#[trigger] sp[j]).is_used == texts[j].1 && joined_text(
                                base_path,
                                sp[j].path@,
                            ) == item_text(texts[j].0),
                    decreases sp.len() - i,
                {
                    let joined = join(base_path, sp[i].path.as_str());
                    let text = match path_as_text(&joined) {
                        Some(text) => Some(text.to_owned()),
                        None => None,
                    };
                    texts.push((text, sp[i].is_used));
                    i += 1;
                }
                Some(texts)
            },
            None => None,
        };
        let ghost given = subs;
        let ghost has_template = template is Some;
        let absolute = self.with_paths(template, subs);
        proof {
            if let Some(texts) = given {
                if absolute is None && has_template {
                    let i = choose|i: int| 0 <= i < texts.len() && !((#[trigger] texts[i]).0 is Some);
                    let sp = self.sub_paths->Some_0;
                    assert(sp[i].is_used == texts[i].1);
                }
            }
        }
        absolute
    }

    /// The copy of `self` that has the given texts as its paths: `template`
    /// as the path of the template and, where substitutions are given, one
    /// substitution for each, with its text as the path and its flag as the
    /// use override.  There is no result where the template or one of the
    /// substitutions has no text.
    pub fn with_paths(
        &self,
        template: Option<String>,
        subs: Option<Vec<(Option<String>, bool)>>,
    ) -> (absolute: Option<Self>)
        ensures
            match absolute {
                Some(input) => template is Some && repathed(*self, template->Some_0@, subs, input),
                None => template is None || !all_have_text(subs),
            },
    {
        let path = match template {
            Some(path) => path,
            None => {
                return None;
            },
        };
        let sub_paths = match &subs {
            Some(texts) => {
                let mut paths: Vec<UsePath> = Vec::new();
                let mut i: usize = 0;
                while i < texts.len()
                    invariant
                        i <= texts.len(),
                        subs == Some(*texts),
                        paths.len() == i,
                        forall|j: int|
                            0 <= j < i ==> (#[trigger] texts[j]).0 is Some && paths[j].path@
                                == texts[j].0->Some_0@ && paths[j].is_used == texts[j].1,
                    decreases texts.len() - i,
                {
                    match &texts[i].0 {
                        Some(text) => {
                            paths.push(UsePath { path: text.clone(), is_used: texts[i].1 });
                        },
                        None => {
                            assert(!(texts[i as int].0 is Some));
                            return None;
                        },
                    }
                    i += 1;
                }
                Some(paths)
            },
            None => None,
        };
        Some(
            MacroInput {
                destructure_datetime: self.destructure_datetime,
                is_pub: self.is_pub,
                static_const: self.static_const,
                item_ident: self.item_ident.clone(),
                is_final: self.is_final,
                path,
                sub_paths,
            },
        )
    }
}

/// The text of an optional string.
pub open spec fn item_text(text: Option<String>) -> Option<Seq<char>> {
    match text {
        Some(text) => Some(text@),
        None => None,
    }
}

/// Whether each of the substitutions has a text.
pub open spec fn all_have_text(subs: Option<Vec<(Option<String>, bool)>>) -> bool {
    match subs {
        Some(texts) => forall|i: int| 0 <= i < texts.len() ==> (#[trigger] texts[i]).0 is Some,
        None => true,
    }
}

/// Whether `output` is `input` with `template` as the path of the template
/// and the given substitutions: as many as are given, in their order, each
/// with its text as the path and its flag as the use override, and none
/// where none are given.
pub open spec fn repathed(
    input: MacroInput,
    template: Seq<char>,
    subs: Option<Vec<(Option<String>, bool)>>,
    output: MacroInput,
) -> bool {
    &&& output.destructure_datetime == input.destructure_datetime
    &&& output.is_pub == input.is_pub
    &&& output.static_const == input.static_const
    &&& output.item_ident@ == input.item_ident@
    &&& output.is_final == input.is_final
    &&& output.path@ == template
    &&& match (subs, output.sub_paths) {
        (Some(texts), Some(paths)) => paths.len() == texts.len() && forall|i: int|
            0 <= i < texts.len() ==> (#[trigger] texts[i]).0 is Some && paths[i].path@
                == texts[i].0->Some_0@ && paths[i].is_used == texts[i].1,
        (None, None) => true,
        _ => false,
    }
}

} // verus!
