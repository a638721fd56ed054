//! The fixed names and paths of the game data this library reads: the tag
//! that activates a law inside a country entry, the wrapper block of
//! country files, and where each kind of definition file lives relative to
//! a mod or game folder.

use vstd::prelude::*;

verus! {

pub const ACTIVATE_LAW_TAG: &'static str = "activate_law";

pub const COUNTRIES_TAG: &'static str = "COUNTRIES";

pub const TEMPLATE_FILE: &'static str = "/common/scripted_effects/law_templates.txt";

pub const COUNTRIES_FOLDER: &'static str = "/common/history/countries";

pub const LAWS_FOLDER: &'static str = "/common/laws";

pub const LAWS_GROUP_FOLDER: &'static str = "/common/law_groups";

pub const LAW_GROUP_TAG: &'static str = "group";

pub const LAW_GROUP_CATEGORY_TAG: &'static str = "law_group_category";

} // verus!
