use knot::appearance::resolve;
use knot::appearance::AppearanceMode;
use knot::appearance::ThemeMode;
use knot::appearance::WindowAppearance;

const LIGHT: [WindowAppearance; 2] = [WindowAppearance::Light, WindowAppearance::VibrantLight];
const DARK: [WindowAppearance; 2] = [WindowAppearance::Dark, WindowAppearance::VibrantDark];

#[test]
fn an_explicit_choice_overrides_the_os() {
    for system in DARK {
        assert_eq!(resolve(AppearanceMode::Light, system), ThemeMode::Light);
    }
    for system in LIGHT {
        assert_eq!(resolve(AppearanceMode::Dark, system), ThemeMode::Dark);
    }
}

#[test]
fn an_explicit_choice_holds_when_the_os_agrees() {
    for system in LIGHT {
        assert_eq!(resolve(AppearanceMode::Light, system), ThemeMode::Light);
    }
    for system in DARK {
        assert_eq!(resolve(AppearanceMode::Dark, system), ThemeMode::Dark);
    }
}

#[test]
fn system_follows_the_os() {
    for system in LIGHT {
        assert_eq!(resolve(AppearanceMode::System, system), ThemeMode::Light);
    }
    for system in DARK {
        assert_eq!(resolve(AppearanceMode::System, system), ThemeMode::Dark);
    }
}

#[test]
fn auto_follows_the_os_like_system() {
    for system in LIGHT.into_iter().chain(DARK) {
        assert_eq!(resolve(AppearanceMode::Auto, system), resolve(AppearanceMode::System, system));
    }
}

#[test]
fn each_mode_either_defers_to_the_os_or_ignores_it() {
    for mode in AppearanceMode::all() {
        let defers_on_light = LIGHT.iter().all(|system| resolve(mode, *system) == ThemeMode::Light);
        let defers_on_dark = DARK.iter().all(|system| resolve(mode, *system) == ThemeMode::Dark);
        let ignores_the_os = LIGHT.iter()
                                  .chain(&DARK)
                                  .map(|system| resolve(mode, *system))
                                  .collect::<std::collections::HashSet<_>>()
                                  .len()
                             == 1;

        assert!((defers_on_light && defers_on_dark) || ignores_the_os,
                "{mode:?} tracks the OS inconsistently");
    }
}

#[test]
fn the_default_mode_defers_to_the_os() {
    for system in LIGHT {
        assert_eq!(resolve(AppearanceMode::default(), system), ThemeMode::Light);
    }
    for system in DARK {
        assert_eq!(resolve(AppearanceMode::default(), system), ThemeMode::Dark);
    }
}

#[test]
fn there_are_four_modes_and_the_default_is_auto() {
    assert_eq!(AppearanceMode::all().len(), 4);
    assert_eq!(AppearanceMode::default(), AppearanceMode::Auto);
    assert_eq!(ThemeMode::of(WindowAppearance::VibrantDark), ThemeMode::Dark);
}
