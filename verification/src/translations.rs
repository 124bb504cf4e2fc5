use vstd::prelude::*;

verus! {

/// Texts of the context menu of a tab.
#[derive(Debug)]
pub struct TabContextMenuTranslations {
    pub close_button: String,
    pub eject_button: String,
}

/// Texts of the buttons of a leaf.
#[derive(Debug)]
pub struct LeafTranslations {
    pub close_button_disabled_tooltip: String,
    pub close_all_button: String,
    pub close_all_button_disabled_tooltip: String,
    pub minimize_button: String,
}

/// Texts shown by the dock area.
#[derive(Debug)]
pub struct Translations {
    pub tab_context_menu: TabContextMenuTranslations,
    pub leaf: LeafTranslations,
}

impl Clone for TabContextMenuTranslations {
    fn clone(&self) -> (r: Self)
        ensures
            r == *self,
    {
        TabContextMenuTranslations { close_button: self.close_button.clone(), eject_button: self.eject_button.clone() }
    }
}

impl Clone for LeafTranslations {
    fn clone(&self) -> (r: Self)
        ensures
            r == *self,
    {
        LeafTranslations {
            close_button_disabled_tooltip: self.close_button_disabled_tooltip.clone(),
            close_all_button: self.close_all_button.clone(),
            close_all_button_disabled_tooltip: self.close_all_button_disabled_tooltip.clone(),
            minimize_button: self.minimize_button.clone(),
        }
    }
}

impl Clone for Translations {
    fn clone(&self) -> (r: Self)
        ensures
            r == *self,
    {
        Translations { tab_context_menu: self.tab_context_menu.clone(), leaf: self.leaf.clone() }
    }
}

impl Translations {
    /// These are the English texts.
    pub open spec fn is_english(&self) -> bool {
        &&& self.tab_context_menu.close_button@ == "Close"@
        &&& self.tab_context_menu.eject_button@ == "Eject"@
        &&& self.leaf.close_button_disabled_tooltip@ == "This leaf contains non-closable tabs."@
        &&& self.leaf.close_all_button@ == "Close window"@
        &&& self.leaf.close_all_button_disabled_tooltip@ == "This window contains non-closable tabs."@
        &&& self.leaf.minimize_button@ == "Minimize window"@
    }

    /// The English texts.
    pub fn english() -> (r: Self)
        ensures
            r.is_english(),
    {
        Translations {
            tab_context_menu: TabContextMenuTranslations {
                close_button: "Close".to_owned(),
                eject_button: "Eject".to_owned(),
            },
            leaf: LeafTranslations {
                close_button_disabled_tooltip: "This leaf contains non-closable tabs.".to_owned(),
                close_all_button: "Close window".to_owned(),
                close_all_button_disabled_tooltip: "This window contains non-closable tabs.".to_owned(),
                minimize_button: "Minimize window".to_owned(),
            },
        }
    }
}

} // verus!
