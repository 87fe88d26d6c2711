//! The stored appearance preference turned into the appearance the app
//! paints: the one place the user's choice and the OS are reconciled.
//!
//! `Auto` and `System` resolve alike. `Auto` would follow the terminal's
//! background, but there is no terminal background setting to read, so it
//! follows the OS; it stays because it is the default and already sits in
//! users' settings files.

use vstd::prelude::*;

verus! {

/// The user's appearance choice, as settings store it.
#[derive(Debug, Clone, Copy, PartialEq, Eq, Hash, Structural)]
pub enum AppearanceMode {
    Auto,
    Light,
    Dark,
    System,
}

/// What the OS reports for a window: both spellings of each appearance,
/// since the vibrant variants are reported under some materials.
#[derive(Debug, Clone, Copy, PartialEq, Eq, Hash, Structural)]
pub enum WindowAppearance {
    Light,
    VibrantLight,
    Dark,
    VibrantDark,
}

/// The appearance the app paints.
#[derive(Debug, Clone, Copy, PartialEq, Eq, Hash, Structural)]
pub enum ThemeMode {
    Light,
    Dark,
}

/// The theme the OS appearance stands for.
pub open spec fn theme_of(system: WindowAppearance) -> ThemeMode {
    match system {
        WindowAppearance::Light | WindowAppearance::VibrantLight => ThemeMode::Light,
        WindowAppearance::Dark | WindowAppearance::VibrantDark => ThemeMode::Dark,
    }
}

/// What `mode` paints when the OS reports `system`.
pub open spec fn resolved(mode: AppearanceMode, system: WindowAppearance) -> ThemeMode {
    match mode {
        AppearanceMode::Light => ThemeMode::Light,
        AppearanceMode::Dark => ThemeMode::Dark,
        AppearanceMode::Auto | AppearanceMode::System => theme_of(system),
    }
}

impl ThemeMode {
    /// The theme that follows the OS appearance `system`.
    pub fn of(system: WindowAppearance) -> (r: ThemeMode)
        ensures
            r == theme_of(system),
    {
        match system {
            WindowAppearance::Light | WindowAppearance::VibrantLight => ThemeMode::Light,
            WindowAppearance::Dark | WindowAppearance::VibrantDark => ThemeMode::Dark,
        }
    }
}

impl AppearanceMode {
    /// Every mode, in the order the picker lists them.
    pub fn all() -> (r: Vec<AppearanceMode>)
        ensures
            r@ == seq![
                AppearanceMode::Auto,
                AppearanceMode::Light,
                AppearanceMode::Dark,
                AppearanceMode::System,
            ],
    {
        vec![AppearanceMode::Auto, AppearanceMode::Light, AppearanceMode::Dark, AppearanceMode::System]
    }
}

impl Default for AppearanceMode {
    /// `Auto`, what a settings file without a choice holds.
    fn default() -> (r: AppearanceMode)
        ensures
            r == AppearanceMode::Auto,
    {
        AppearanceMode::Auto
    }
}

/// Which appearance the app paints, given the user's choice and what the OS
/// reports: an explicit `Light` or `Dark` wins, `Auto` and `System` follow
/// the OS.
pub fn resolve(mode: AppearanceMode, system: WindowAppearance) -> (r: ThemeMode)
    ensures
        r == resolved(mode, system),
{
    match mode {
        AppearanceMode::Light => ThemeMode::Light,
        AppearanceMode::Dark => ThemeMode::Dark,
        AppearanceMode::Auto | AppearanceMode::System => ThemeMode::of(system),
    }
}

/// An explicit choice holds whatever the OS reports, agreeing with it or
/// not.
pub proof fn lemma_explicit_choice_holds(system: WindowAppearance)
    ensures
        resolved(AppearanceMode::Light, system) == ThemeMode::Light,
        resolved(AppearanceMode::Dark, system) == ThemeMode::Dark,
{
}

/// `System` and `Auto` follow the OS, and so resolve alike.
pub proof fn lemma_system_and_auto_follow_the_os(system: WindowAppearance)
    ensures
        resolved(AppearanceMode::System, system) == theme_of(system),
        resolved(AppearanceMode::Auto, system) == resolved(AppearanceMode::System, system),
{
}

/// Each mode either defers to the OS for every appearance or ignores it
/// for every appearance; none tracks the OS only some of the time.
pub proof fn lemma_each_mode_defers_or_ignores(mode: AppearanceMode)
    ensures
        (forall|system: WindowAppearance| #[trigger] resolved(mode, system) == theme_of(system))
            || (forall|a: WindowAppearance, b: WindowAppearance|
            #[trigger] resolved(mode, a) == #[trigger] resolved(mode, b)),
{
}

/// The default mode defers to the OS, so a settings file written without a
/// choice keeps the scheme the OS shows.
pub proof fn lemma_default_defers_to_the_os(system: WindowAppearance)
    ensures
        resolved(AppearanceMode::Auto, system) == theme_of(system),
{
}

} // verus!
