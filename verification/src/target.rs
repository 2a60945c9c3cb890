//! Names of what the build tool runs commands for: anonymous targets and the
//! targets of command executions, with the keys and paths that are derived from
//! them. The engine stores such names opaquely; this module only spells them out.

use vstd::prelude::*;
use vstd::string::StringExecFns;
use crate::chars::{hex_text, push_hex_text};

verus! {

/// The label of a target: the cell, the package inside the cell, and the name of the
/// target inside the package.
#[derive(Clone, Debug, PartialEq, Eq, Hash)]
pub struct TargetLabel {
    pub cell_name: String,
    pub cell_relative_path: String,
    pub name: String,
}

/// The mathematical content of a `TargetLabel`.
pub struct LabelView {
    pub cell_name: Seq<char>,
    pub cell_relative_path: Seq<char>,
    pub name: Seq<char>,
}

impl View for TargetLabel {
    type V = LabelView;

    open spec fn view(&self) -> LabelView {
        LabelView {
            cell_name: self.cell_name@,
            cell_relative_path: self.cell_relative_path@,
            name: self.name@,
        }
    }
}

/// The label as it is written: `cell//package:name`.
pub open spec fn label_text(label: LabelView) -> Seq<char> {
    label.cell_name + "//"@ + label.cell_relative_path + ":"@ + label.name
}

impl TargetLabel {
    /// The label as it is written.
    pub fn to_text(&self) -> (s: String)
        ensures
            s@ == label_text(self@),
    {
        let mut s: String = self.cell_name.clone();
        s.append("//");
        s.append(self.cell_relative_path.as_str());
        s.append(":");
        s.append(self.name.as_str());
        s
    }
}

/// An execution configuration: its full name, and the hash under which its outputs
/// are laid out.
#[derive(Clone, Debug, PartialEq, Eq, Hash)]
pub struct ExecConfiguration {
    pub full_name: String,
    pub output_hash: String,
}

/// A target without a label in any build file: a rule applied to attributes. Two
/// such targets are told apart by the hash of the rule and the attributes.
#[derive(Clone, Debug, PartialEq, Eq, Hash)]
pub struct AnonTarget {
    /// Not necessarily a "real" target label that actually exists, but could be.
    name: TargetLabel,
    /// The type of the rule we are running.
    rule_type: String,
    /// The attributes the target was defined with, sorted by name.
    attrs: Vec<(String, String)>,
    /// The hash of the `rule_type` and `attrs`.
    hash: String,
    /// The execution configuration - same as the parent.
    exec_cfg: ExecConfiguration,
}

/// The mathematical content of an `AnonTarget`, as far as names and paths go.
pub struct AnonTargetView {
    pub name: LabelView,
    pub rule_type: Seq<char>,
    pub hash: Seq<char>,
    pub cfg_name: Seq<char>,
    pub cfg_hash: Seq<char>,
}

impl View for AnonTarget {
    type V = AnonTargetView;

    closed spec fn view(&self) -> AnonTargetView {
        AnonTargetView {
            name: self.name@,
            rule_type: self.rule_type@,
            hash: self.hash@,
            cfg_name: self.exec_cfg.full_name@,
            cfg_hash: self.exec_cfg.output_hash@,
        }
    }
}

/// The separator that follows a package path: none after the empty path.
pub open spec fn package_separator(cell_relative_path: Seq<char>) -> Seq<char> {
    if cell_relative_path.len() == 0 {
        Seq::empty()
    } else {
        "/"@
    }
}

/// The part of a path that names the action: the key between two underscores each,
/// or nothing without a key.
pub open spec fn action_part(action_key: Option<Seq<char>>) -> Seq<char> {
    match action_key {
        Some(key) => key + "__"@,
        None => Seq::empty(),
    }
}

/// The path under `base` at which an anonymous target keeps `path`.
pub open spec fn hashed_path(
    target: AnonTargetView,
    base: Seq<char>,
    prefix: Seq<char>,
    action_key: Option<Seq<char>>,
    path: Seq<char>,
) -> Seq<char> {
    base + "/"@ + prefix + "-anon/"@ + target.name.cell_name + "/"@ + target.cfg_hash
        + target.name.cell_relative_path + package_separator(target.name.cell_relative_path)
        + target.hash + "/__"@ + target.name.name + "__"@ + action_part(action_key) + "/"@ + path
}

/// The target as it is shown: `label (anon: hash) (configuration)`.
pub open spec fn anon_text(target: AnonTargetView) -> Seq<char> {
    label_text(target.name) + " (anon: "@ + target.hash + ") ("@ + target.cfg_name + ")"@
}

/// The view of an optional text.
pub open spec fn text_view(s: Option<&str>) -> Option<Seq<char>> {
    match s {
        Some(t) => Some(t@),
        None => None,
    }
}

impl AnonTarget {
    /// The hash of a rule and its attributes as it is written: the digest in
    /// lower-case hexadecimal.
    pub fn mk_hash(digest: u64) -> (s: String)
        ensures
            s@ == hex_text(digest as nat),
    {
        let mut s: String = String::new();
        push_hex_text(&mut s, digest);
        s
    }

    /// The anonymous target of the rule `rule_type` with the attributes `attrs`,
    /// whose hash is the digest `digest` of the two.
    pub fn new(
        rule_type: String,
        name: TargetLabel,
        attrs: Vec<(String, String)>,
        exec_cfg: ExecConfiguration,
        digest: u64,
    ) -> (t: AnonTarget)
        ensures
            t@ == (AnonTargetView {
                name: name@,
                rule_type: rule_type@,
                hash: hex_text(digest as nat),
                cfg_name: exec_cfg.full_name@,
                cfg_hash: exec_cfg.output_hash@,
            }),
            t.attributes() == attrs,
    {
        let hash = Self::mk_hash(digest);
        AnonTarget { name, rule_type, attrs, hash, exec_cfg }
    }

    /// The attributes the target was defined with.
    pub closed spec fn attributes(&self) -> Vec<(String, String)> {
        self.attrs
    }

    /// The type of the rule.
    pub fn rule_type(&self) -> (r: &String)
        ensures
            r@ == self@.rule_type,
    {
        &self.rule_type
    }

    /// The label of the target.
    pub fn name(&self) -> (n: &TargetLabel)
        ensures
            n@ == self@.name,
    {
        &self.name
    }

    /// The attributes the target was defined with.
    pub fn attrs(&self) -> (a: &Vec<(String, String)>)
        ensures
            *a == self.attributes(),
    {
        &self.attrs
    }

    /// The hash of the rule and the attributes.
    pub fn rule_type_attrs_hash(&self) -> (h: &str)
        ensures
            h@ == self@.hash,
    {
        self.hash.as_str()
    }

    /// The execution configuration.
    pub fn exec_cfg(&self) -> (c: &ExecConfiguration)
        ensures
            c.full_name@ == self@.cfg_name,
            c.output_hash@ == self@.cfg_hash,
    {
        &self.exec_cfg
    }

    /// The target as it is shown.
    pub fn to_text(&self) -> (s: String)
        ensures
            s@ == anon_text(self@),
    {
        let mut s: String = self.name.to_text();
        s.append(" (anon: ");
        s.append(self.hash.as_str());
        s.append(") (");
        s.append(self.exec_cfg.full_name.as_str());
        s.append(")");
        s
    }

    /// The path under `base` at which the target keeps `path`: the cell and the
    /// configuration first, then the package, the hash, the name, and the action.
    pub fn make_hashed_path(
        &self,
        base: &str,
        prefix: &str,
        action_key: Option<&str>,
        path: &str,
    ) -> (r: String)
        ensures
            r@ == hashed_path(self@, base@, prefix@, text_view(action_key), path@),
    {
        let mut r: String = String::from_str(base);
        r.append("/");
        r.append(prefix);
        r.append("-anon/");
        r.append(self.name.cell_name.as_str());
        r.append("/");
        r.append(self.exec_cfg.output_hash.as_str());
        r.append(self.name.cell_relative_path.as_str());
        if self.name.cell_relative_path.as_str().unicode_len() != 0 {
            r.append("/");
        }
        r.append(self.hash.as_str());
        r.append("/__");
        r.append(self.name.name.as_str());
        r.append("__");
        match action_key {
            Some(key) => {
                r.append(key);
                r.append("__");
            },
            None => {},
        }
        r.append("/");
        r.append(path);
        proof {
            assert(r@ =~= hashed_path(self@, base@, prefix@, text_view(action_key), path@));
        }
        r
    }
}

/// Why a command is executed: the owner of the action, the category of the action,
/// and what tells the action apart inside its category.
#[derive(Clone, Debug, PartialEq, Eq)]
pub struct CommandExecutionTarget {
    pub owner: String,
    pub category: String,
    pub identifier: Option<String>,
}

/// The target of a command execution as it is shown: owner and category, and the
/// identifier where there is one, each after a blank.
pub open spec fn execution_text(
    owner: Seq<char>,
    category: Seq<char>,
    identifier: Option<Seq<char>>,
) -> Seq<char> {
    match identifier {
        Some(id) => owner + " "@ + category + " "@ + id,
        None => owner + " "@ + category,
    }
}

/// The text of an optional string.
pub open spec fn owned_text_view(s: Option<String>) -> Option<Seq<char>> {
    match s {
        Some(t) => Some(t@),
        None => None,
    }
}

impl CommandExecutionTarget {
    /// The target as it is shown.
    pub fn to_text(&self) -> (s: String)
        ensures
            s@ == execution_text(self.owner@, self.category@, owned_text_view(self.identifier)),
    {
        let mut s: String = self.owner.clone();
        s.append(" ");
        s.append(self.category.as_str());
        match &self.identifier {
            Some(id) => {
                s.append(" ");
                s.append(id.as_str());
            },
            None => {},
        }
        proof {
            assert(s@ =~= execution_text(
                self.owner@,
                self.category@,
                owned_text_view(self.identifier),
            ));
        }
        s
    }

    /// The key under which remote execution knows the action: the target as it is
    /// shown.
    pub fn re_action_key(&self) -> (s: String)
        ensures
            s@ == execution_text(self.owner@, self.category@, owned_text_view(self.identifier)),
    {
        self.to_text()
    }

    /// The key by which remote execution keeps the actions of one owner together:
    /// the owner.
    pub fn re_affinity_key(&self) -> (s: String)
        ensures
            s@ == self.owner@,
    {
        self.owner.clone()
    }
}

} // verus!
