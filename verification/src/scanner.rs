//! Which files of the vault are notes: Markdown files outside hidden and ignored
//! directories.
use vstd::prelude::*;
use crate::config::{AppConfig, views};
use crate::text::{ascii_lower_seq, eq_ignore_ascii_case};

verus! {

/// A path component is skipped: it is hidden (starts with `.`) or equals one of the
/// ignore patterns without regard to ASCII case.
pub open spec fn component_ignored(c: Seq<char>, patterns: Seq<Seq<char>>) -> bool {
    (c.len() > 0 && c[0] == '.') || exists|i: int|
        0 <= i < patterns.len() && ascii_lower_seq(c) == ascii_lower_seq(#[trigger] patterns[i])
}

/// Some component of the path is skipped.
pub open spec fn path_ignored(components: Seq<Seq<char>>, patterns: Seq<Seq<char>>) -> bool {
    exists|i: int| 0 <= i < components.len() && component_ignored(#[trigger] components[i], patterns)
}

/// A component is skipped exactly when it is hidden or equals one of the ignore
/// patterns, ASCII case aside.
pub proof fn lemma_component_ignored(c: Seq<char>, patterns: Seq<Seq<char>>)
    ensures
        (c.len() > 0 && c[0] == '.') ==> component_ignored(c, patterns),
        forall|j: int|
            0 <= j < patterns.len() && ascii_lower_seq(c) == ascii_lower_seq(#[trigger] patterns[j]) ==> component_ignored(
                c,
                patterns,
            ),
        component_ignored(c, patterns) ==> (c.len() > 0 && c[0] == '.') || exists|j: int|
            0 <= j < patterns.len() && ascii_lower_seq(c) == ascii_lower_seq(#[trigger] patterns[j]),
{
}

/// A path is skipped when one of its components equals one of the ignore patterns, ASCII
/// case aside, or is hidden; and only then.
pub proof fn lemma_path_ignored(components: Seq<Seq<char>>, patterns: Seq<Seq<char>>)
    ensures
        forall|i: int, j: int|
            0 <= i < components.len() && 0 <= j < patterns.len() && ascii_lower_seq(#[trigger] components[i])
                == ascii_lower_seq(#[trigger] patterns[j]) ==> path_ignored(components, patterns),
        forall|i: int|
            0 <= i < components.len() && (#[trigger] components[i]).len() > 0 && components[i][0] == '.' ==> path_ignored(
                components,
                patterns,
            ),
        path_ignored(components, patterns) ==> exists|i: int|
            0 <= i < components.len() && ((#[trigger] components[i]).len() > 0 && components[i][0] == '.' || exists|
                j: int,
            |
                0 <= j < patterns.len() && ascii_lower_seq(components[i]) == ascii_lower_seq(#[trigger] patterns[j])),
{
    assert forall|i: int, j: int|
        0 <= i < components.len() && 0 <= j < patterns.len() && ascii_lower_seq(#[trigger] components[i])
            == ascii_lower_seq(#[trigger] patterns[j]) implies path_ignored(components, patterns) by {
        lemma_component_ignored(components[i], patterns);
    }
    assert forall|i: int|
        0 <= i < components.len() && (#[trigger] components[i]).len() > 0 && components[i][0] == '.' implies path_ignored(
            components,
            patterns,
        ) by {
        lemma_component_ignored(components[i], patterns);
    }
    if path_ignored(components, patterns) {
        let i = choose|i: int| 0 <= i < components.len() && component_ignored(#[trigger] components[i], patterns);
        lemma_component_ignored(components[i], patterns);
    }
}

/// Whether one component is skipped.
pub fn component_is_ignored(c: &String, patterns: &Vec<String>) -> (b: bool)
    ensures
        b == component_ignored(c@, views(patterns@)),
        forall|j: int|
            0 <= j < patterns@.len() && ascii_lower_seq(c@) == ascii_lower_seq(#[trigger] patterns@[j]@) ==> b,
        (c@.len() > 0 && c@[0] == '.') ==> b,
{
    proof {
        lemma_component_ignored(c@, views(patterns@));
        assert forall|j: int| 0 <= j < patterns@.len() implies views(patterns@)[j] == #[trigger] patterns@[j]@ by {}
    }
    let cs = c.as_str();
    if cs.unicode_len() > 0 && cs.get_char(0) == '.' {
        return true;
    }
    let mut i: usize = 0;
    while i < patterns.len()
        invariant
            i <= patterns@.len(),
            cs@ == c@,
            forall|j: int| 0 <= j < i ==> ascii_lower_seq(c@) != ascii_lower_seq(#[trigger] views(patterns@)[j]),
        decreases patterns@.len() - i,
    {
        assert(views(patterns@)[i as int] == patterns@[i as int]@);
        if eq_ignore_ascii_case(cs, patterns[i].as_str()) {
            assert(ascii_lower_seq(c@) == ascii_lower_seq(views(patterns@)[i as int]));
            return true;
        }
        i += 1;
    }
    false
}

/// Whether some component of the path is skipped.
pub fn path_is_ignored(components: &Vec<String>, patterns: &Vec<String>) -> (b: bool)
    ensures
        b == path_ignored(views(components@), views(patterns@)),
{
    let mut i: usize = 0;
    while i < components.len()
        invariant
            i <= components@.len(),
            forall|j: int| 0 <= j < i ==> !component_ignored(#[trigger] views(components@)[j], views(patterns@)),
        decreases components@.len() - i,
    {
        if component_is_ignored(&components[i], patterns) {
            assert(component_ignored(views(components@)[i as int], views(patterns@)));
            return true;
        }
        i += 1;
    }
    false
}

/// Walks a vault for Markdown notes.
pub struct VaultScanner {
    pub config: AppConfig,
}

impl VaultScanner {
    /// A scanner for the vault that `config` describes.
    pub fn new(config: AppConfig) -> (s: Self)
        ensures
            s.config == config,
    {
        VaultScanner { config }
    }

    /// Whether a file is skipped, given the components of its path relative to the vault
    /// root (`None` when it is not under the root): some component is hidden or matches
    /// an ignore pattern.
    pub fn should_ignore(&self, relative: &Option<Vec<String>>) -> (b: bool)
        ensures
            b == match relative {
                Some(c) => path_ignored(views(c@), views(self.config.ignore_patterns@)),
                None => true,
            },
            relative matches Some(c) ==> forall|i: int, j: int|
                0 <= i < c@.len() && 0 <= j < self.config.ignore_patterns@.len() && ascii_lower_seq(#[trigger] c@[i]@)
                    == ascii_lower_seq(#[trigger] self.config.ignore_patterns@[j]@) ==> b,
    {
        proof {
            if let Some(c) = relative {
                let cs = views(c@);
                let ps = views(self.config.ignore_patterns@);
                lemma_path_ignored(cs, ps);
                assert forall|i: int, j: int|
                    0 <= i < c@.len() && 0 <= j < self.config.ignore_patterns@.len() && ascii_lower_seq(
                        #[trigger] c@[i]@,
                    ) == ascii_lower_seq(#[trigger] self.config.ignore_patterns@[j]@) implies path_ignored(cs, ps) by {
                    assert(cs[i] == c@[i]@);
                    assert(ps[j] == self.config.ignore_patterns@[j]@);
                }
            }
        }
        match relative {
            Some(c) => path_is_ignored(c, &self.config.ignore_patterns),
            None => true,
        }
    }

    /// Whether a walked entry is a note: not a directory, with the extension `md`, and
    /// not skipped.
    pub fn accepts(&self, is_dir: bool, extension: &Option<String>, relative: &Option<Vec<String>>) -> (b: bool)
        ensures
            b == (!is_dir && (match extension {
                Some(e) => e@ == "md"@,
                None => false,
            }) && !(match relative {
                Some(c) => path_ignored(views(c@), views(self.config.ignore_patterns@)),
                None => true,
            })),
    {
        if is_dir {
            return false;
        }
        match extension {
            Some(e) => {
                if !crate::text::str_eq(e.as_str(), "md") {
                    return false;
                }
            },
            None => {
                return false;
            },
        }
        !self.should_ignore(relative)
    }
}

} // verus!
