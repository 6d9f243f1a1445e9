//! Prompt texts and priorities for moving from PatternFly v5 to v6.

use crate::goose::{is_informational, is_prop_level};
use crate::text::{contains, contains_text, texts};
use vstd::prelude::*;

verus! {

/// The name of the ruleset that these texts belong to.
pub const PATTERNFLY_RULESET_NAME: &'static str = "konveyor-patternfly-v5-to-v6";

/// What the fixes are for.
pub const MIGRATION_DESCRIPTION: &'static str = "PatternFly v5 to v6 migration";

/// Imports go through the public entry point.
pub const DEEP_IMPORTS: &'static str = "NEVER use deep import paths like '@patternfly/react-core/dist/esm/...' or '@patternfly/react-core/next'. Always use the public barrel import '@patternfly/react-core'.";

/// Components stay components.
pub const RAW_ELEMENTS: &'static str = "NEVER replace PatternFly components (Button, MenuToggle, etc.) with raw HTML elements (<button>, <a>, <div>). If a component still exists in PF6, keep using it.";

/// Test identifiers stay.
pub const TEST_IDS: &'static str = "NEVER remove data-ouia-component-id, ouiaId, or other test identifier props unless the migration rule specifically says to.";

/// No invented components.
pub const KNOWN_COMPONENTS: &'static str = "NEVER invent or use component names that are not mentioned in the migration rules or already imported in the file. Only use components explicitly named in the rule message.";

/// New components come from the package of their parent.
pub const SAME_PACKAGE: &'static str = "When adding new components (ModalHeader, ModalBody, ModalFooter, etc.), import them from the same package as the parent component.";

/// What to keep and what to remove.
pub const RESTRUCTURED: &'static str = "If the migration rule says a component was \"restructured\" or \"still exists\", keep the component and only restructure its props/children as described. If the rule says a component was \"removed\" and tells you to remove the import, DO remove it and migrate to the replacement described in the rule.";

/// Moved props get their child component.
pub const CHILD_COMPONENTS: &'static str = "When a prop migration says to pass a prop to a child component (e.g., 'actions → pass as children of <ModalFooter>'), you MUST create that child component element, import it, and render the prop value within it.";

/// The forms in which props are passed.
pub const PROP_FORMS: &'static str = "Props can be passed in multiple ways — look for ALL of them when migrating a removed prop:\n  * Direct: `propName={value}`\n  * Conditional spread: `{...(value && { propName: value })}` or `{...(condition && { propName })}` — convert the condition to wrap the new child component, e.g., `{value && <ChildComponent>{value}</ChildComponent>}`\n  * Object spread: `{...props}` — check if the spread object contains the removed prop";

/// The warning against undoing earlier fixes.
pub const REVERT_WARNING: &'static str = "CRITICAL: Do NOT move imports back to '@patternfly/react-core/deprecated' if a previous fix moved them to '@patternfly/react-core'. The migration direction is always FROM deprecated TO the main package, never the reverse.";

/// The kinds of change, as examples.
pub const CHANGE_TYPE_EXAMPLES: &'static str = "add/remove/move import, restructure JSX, migrate prop";

/// The check to make after editing.
pub const VERIFICATION_PROMPT: &'static str = "VERIFICATION: After making edits, check that EVERY removed prop listed in the migration rules has been migrated to its specified child component. Do NOT declare a migration \"already applied\" unless ALL listed child components are present AND all removed props are accounted for.";

/// The system prompt for single fixes.
pub const SYSTEM_PROMPT: &'static str = "You are a PatternFly v5 to v6 migration assistant. Given a code snippet and a migration message, output ONLY the corrected code for the affected lines. Output in this exact format:\n\n```fix\nLINE:<line_number>\nOLD:<exact old text on that line>\nNEW:<replacement text>\n```\n\nYou may output multiple fix blocks. Do not include any explanation outside the fix blocks. Only output fixes for lines that need to change.\n\nIMPORTANT: After applying your fixes, check the import statements at the top of the file. If any imported names are no longer referenced in the file body, remove those specifiers from the import. If removing the last specifier from an import line, remove the entire import line. Output fix blocks for any import cleanup needed.";

/// The constraints, in order.
pub open spec fn constraint_texts() -> Seq<Seq<char>> {
    seq![DEEP_IMPORTS@, RAW_ELEMENTS@, TEST_IDS@, KNOWN_COMPONENTS@, SAME_PACKAGE@, RESTRUCTURED@, CHILD_COMPONENTS@, PROP_FORMS@]
}

/// Texts and priorities for moving from PatternFly v5 to v6.
#[derive(Debug)]
pub struct PatternFlyV5ToV6Context {
    constraints: Vec<String>,
}

/// The rank of a rule in a batch; lower ranks come first.
pub open spec fn context_priority(rule_id: Seq<char>) -> u8 {
    if contains(rule_id, "hierarchy-"@) {
        0
    } else if contains(rule_id, "component-import-deprecated"@) {
        1
    } else if contains(rule_id, "composition"@) || contains(rule_id, "new-sibling"@) {
        2
    } else if is_prop_level(rule_id) {
        3
    } else if is_informational(rule_id) {
        4
    } else if contains(rule_id, "conformance"@) {
        5
    } else {
        3
    }
}

/// A rule has one of six ranks, and only those on the component tree have the first.
pub proof fn hierarchy_rules_come_first(rule_id: Seq<char>)
    ensures
        context_priority(rule_id) <= 5,
        context_priority(rule_id) == 0 <==> contains(rule_id, "hierarchy-"@),
{
}

impl PatternFlyV5ToV6Context {
    /// The constraints that a language model is given.
    pub closed spec fn constraints(&self) -> Seq<Seq<char>> {
        texts(self.constraints@)
    }

    pub fn new() -> (r: PatternFlyV5ToV6Context)
        ensures
            r.constraints() == constraint_texts(),
    {
        let mut constraints: Vec<String> = Vec::new();
        constraints.push(DEEP_IMPORTS.to_owned());
        constraints.push(RAW_ELEMENTS.to_owned());
        constraints.push(TEST_IDS.to_owned());
        constraints.push(KNOWN_COMPONENTS.to_owned());
        constraints.push(SAME_PACKAGE.to_owned());
        constraints.push(RESTRUCTURED.to_owned());
        constraints.push(CHILD_COMPONENTS.to_owned());
        constraints.push(PROP_FORMS.to_owned());
        let r = PatternFlyV5ToV6Context { constraints };
        assert(r.constraints() =~= constraint_texts());
        r
    }

    /// The name of the ruleset.
    pub fn ruleset_name(&self) -> (r: &'static str)
        ensures
            r@ == PATTERNFLY_RULESET_NAME@,
    {
        PATTERNFLY_RULESET_NAME
    }

    /// What the fixes are for.
    pub fn migration_description(&self) -> (r: &'static str)
        ensures
            r@ == MIGRATION_DESCRIPTION@,
    {
        MIGRATION_DESCRIPTION
    }

    /// The constraints that a language model is given.
    pub fn llm_constraints(&self) -> (r: &Vec<String>)
        ensures
            texts(r@) == self.constraints(),
    {
        &self.constraints
    }

    /// The warning against undoing earlier fixes.
    pub fn revert_warnings(&self) -> (r: Option<&'static str>)
        ensures
            r is Some,
            r->0@ == REVERT_WARNING@,
    {
        Some(REVERT_WARNING)
    }

    /// The rank of a rule in a batch, by the words in its id.
    pub fn fix_priority(&self, rule_id: &str) -> (r: u8)
        ensures
            r == context_priority(rule_id@),
    {
        if contains_text(rule_id, "hierarchy-") {
            0
        } else if contains_text(rule_id, "component-import-deprecated") {
            1
        } else if contains_text(rule_id, "composition") || contains_text(rule_id, "new-sibling") {
            2
        } else if contains_text(rule_id, "removed") || contains_text(rule_id, "renamed") || contains_text(
            rule_id,
            "type-changed",
        ) || contains_text(rule_id, "signature-changed") || contains_text(rule_id, "prop-value") {
            3
        } else if contains_text(rule_id, "behavioral") || contains_text(rule_id, "dom-structure")
            || contains_text(rule_id, "css-") || contains_text(rule_id, "accessibility") || contains_text(
            rule_id,
            "logic-change",
        ) || contains_text(rule_id, "render-output") {
            4
        } else if contains_text(rule_id, "conformance") {
            5
        } else {
            3
        }
    }

    /// The kinds of change, as examples.
    pub fn change_type_examples(&self) -> (r: &'static str)
        ensures
            r@ == CHANGE_TYPE_EXAMPLES@,
    {
        CHANGE_TYPE_EXAMPLES
    }

    /// The check to make after editing.
    pub fn verification_prompt(&self) -> (r: Option<&'static str>)
        ensures
            r is Some,
            r->0@ == VERIFICATION_PROMPT@,
    {
        Some(VERIFICATION_PROMPT)
    }

    /// The system prompt for single fixes.
    pub fn llm_system_prompt(&self) -> (r: String)
        ensures
            r@ == SYSTEM_PROMPT@,
    {
        SYSTEM_PROMPT.to_owned()
    }
}

impl Default for PatternFlyV5ToV6Context {
    fn default() -> (r: PatternFlyV5ToV6Context)
        ensures
            r.constraints() == constraint_texts(),
    {
        PatternFlyV5ToV6Context::new()
    }
}

/// Of the words in the id of a rule, that of the first rank decides, and rules without any
/// rank with those on props.
pub proof fn the_first_rank_decides(rule_id: Seq<char>)
    ensures
        ({
            let rank = context_priority(rule_id);
            let tree = contains(rule_id, "hierarchy-"@);
            let moved = contains(rule_id, "component-import-deprecated"@);
            let parts = contains(rule_id, "composition"@) || contains(rule_id, "new-sibling"@);
            let props = contains(rule_id, "removed"@) || contains(rule_id, "renamed"@) || contains(
                rule_id,
                "type-changed"@,
            ) || contains(rule_id, "signature-changed"@) || contains(rule_id, "prop-value"@);
            let looks = contains(rule_id, "behavioral"@) || contains(rule_id, "dom-structure"@)
                || contains(rule_id, "css-"@) || contains(rule_id, "accessibility"@) || contains(
                rule_id,
                "logic-change"@,
            ) || contains(rule_id, "render-output"@);
            let form = contains(rule_id, "conformance"@);
            &&& rank == 0 <==> tree
            &&& rank == 1 <==> moved && !tree
            &&& rank == 2 <==> parts && !moved && !tree
            &&& rank == 4 <==> looks && !props && !parts && !moved && !tree
            &&& rank == 5 <==> form && !looks && !props && !parts && !moved && !tree
            &&& rank == 3 <==> !parts && !moved && !tree && (props || (!looks && !form))
        }),
{
}

} // verus!
