use vizia_core::access::AccessNode;
use vizia_core::accessibility::{AccessContext, ViewHandler};
use vizia_core::context::Context;
use vizia_core::entity::Entity;
use vizia_core::resource::ImageRetentionPolicy;
use vizia_core::selector::{Component, Selector, SelectorList};
use vizia_core::style::{Declaration, Role, Rule};

struct Plain;

impl ViewHandler for Plain {
    fn accessibility(&self, _cx: &AccessContext, _node: &mut AccessNode) {}
}

type Cx = Context<Plain, u32, u32, &'static str>;

fn rule(class: &str, role: Role) -> Rule {
    Rule {
        selectors: SelectorList::new(vec![Selector::new(vec![Component::class(class)])]),
        declarations: vec![Declaration::Role(role)],
    }
}

#[test]
fn first_font_under_a_name_stays() {
    let mut cx = Cx::new();
    cx.add_font_mem("icons", &[1, 2, 3]);
    cx.add_font_mem("text", &[4]);
    cx.add_font_mem("icons", &[9, 9]);
    assert_eq!(cx.resource_manager.fonts.len(), 2);
    assert_eq!(cx.resource_manager.fonts[0].name, "icons");
    assert_eq!(cx.resource_manager.fonts[0].data, vec![1, 2, 3]);
    assert_eq!(cx.resource_manager.fonts[1].name, "text");
    assert_eq!(cx.resource_manager.find_font(&String::from("text")), 1);
    assert_eq!(cx.resource_manager.find_font(&String::from("none")), 2);
}

#[test]
fn default_font_is_remembered() {
    let mut cx = Cx::new();
    cx.set_default_font("sans");
    assert_eq!(cx.style.default_font, "sans");
}

#[test]
fn reload_without_sources_changes_nothing() {
    let mut cx = Cx::new();
    cx.reload_styles(vec![rule("foo", Role::Button)]);
    assert!(cx.style.rules.is_empty());
    assert!(!cx.style.needs_restyle && !cx.style.needs_relayout && !cx.style.needs_redraw);
}

#[test]
fn add_theme_puts_the_rules_in_force() {
    let mut cx = Cx::new();
    cx.add_theme(".foo { role: button }", vec![rule("foo", Role::Button)]);
    assert_eq!(cx.resource_manager.themes, vec![String::from(".foo { role: button }")]);
    assert_eq!(cx.style.rules.len(), 1);
    assert!(cx.style.needs_restyle && cx.style.needs_relayout && cx.style.needs_redraw);
    cx.reload_styles(vec![rule("a", Role::Label), rule("b", Role::Image)]);
    assert_eq!(cx.style.rules.len(), 2);
}

#[test]
fn theme_rule_reaches_the_entity_with_the_class() {
    let mut cx = Cx::new();
    let c = cx.create(Entity::root(), 0).unwrap();
    cx.style.modify(c).unwrap().classes.push(String::from("foo"));
    cx.add_theme(".foo { role: button }", vec![rule("foo", Role::Button)]);
    cx.restyle();
    assert_eq!(cx.style.properties(c).role, Some(Role::Button));
    assert_eq!(cx.style.properties(Entity::root()).role, None);
    assert!(!cx.style.needs_restyle);
    // No restyle due: nothing happens, even though the rules have changed.
    cx.style.rules.clear();
    cx.restyle();
    assert_eq!(cx.style.properties(c).role, Some(Role::Button));
    cx.need_restyle();
    cx.restyle();
    assert_eq!(cx.style.properties(c).role, None);
}

#[test]
fn remove_user_themes_goes_back_to_the_defaults() {
    let mut cx = Cx::new();
    cx.add_theme("user", vec![rule("foo", Role::Button)]);
    cx.remove_user_themes("layout", "theme", vec![]);
    assert_eq!(cx.resource_manager.themes, vec![String::from("layout"), String::from("theme")]);
    assert!(cx.style.rules.is_empty());
    cx.ignore_default_theme = true;
    cx.remove_user_themes("layout", "theme", vec![rule("a", Role::Label)]);
    assert_eq!(cx.resource_manager.themes, vec![String::from("layout")]);
    assert_eq!(cx.style.rules.len(), 1);
}

#[test]
fn add_stylesheet_appends_rules() {
    let mut cx = Cx::new();
    cx.add_theme("user", vec![rule("foo", Role::Button)]);
    cx.style.needs_restyle = false;
    cx.add_stylesheet("app.css", vec![rule("a", Role::Label), rule("b", Role::Image)]);
    assert_eq!(cx.resource_manager.stylesheets, vec![String::from("app.css")]);
    assert_eq!(cx.style.rules.len(), 3);
    assert_eq!(cx.style.rules[0].declarations, vec![Declaration::Role(Role::Button)]);
    assert_eq!(cx.style.rules[2].declarations, vec![Declaration::Role(Role::Image)]);
    assert!(!cx.style.needs_restyle);
}

#[test]
fn load_image_enters_or_refreshes() {
    let mut cx = Cx::new();
    cx.load_image(String::from("a.png"), ImageRetentionPolicy::Forever);
    assert_eq!(cx.resource_manager.images.len(), 1);
    assert!(cx.resource_manager.images[0].used);
    assert!(!cx.resource_manager.images[0].dirty);
    assert!(cx.style.needs_redraw && cx.style.needs_relayout && !cx.style.needs_restyle);
    cx.load_image(String::from("b.png"), ImageRetentionPolicy::DropWhenNoObservers);
    cx.load_image(String::from("a.png"), ImageRetentionPolicy::DropWhenUnusedForOneFrame);
    assert_eq!(cx.resource_manager.images.len(), 2);
    assert!(cx.resource_manager.images[0].dirty);
    assert_eq!(
        cx.resource_manager.images[0].retention_policy,
        ImageRetentionPolicy::DropWhenUnusedForOneFrame
    );
    assert!(!cx.resource_manager.images[1].dirty);
    assert_eq!(cx.resource_manager.find_image(&String::from("b.png")), 1);
}

#[test]
fn removal_revokes_image_observers() {
    let mut cx = Cx::new();
    let a = cx.create(Entity::root(), 0).unwrap();
    let a1 = cx.create(a, 0).unwrap();
    let b = cx.create(Entity::root(), 1).unwrap();
    let path = String::from("a.png");
    cx.load_image(path.clone(), ImageRetentionPolicy::DropWhenNoObservers);
    assert!(cx.add_image_observer(&path, a1));
    assert!(cx.add_image_observer(&path, b));
    assert!(!cx.add_image_observer(&String::from("none.png"), b));
    assert!(!cx.add_image_observer(&path, Entity::new(70, 0)));
    cx.remove(a);
    assert!(!cx.resource_manager.images[0].observers.contains(a1));
    assert!(cx.resource_manager.images[0].observers.contains(b));
    assert_eq!(cx.resource_manager.images[0].observers.len(), 1);
}

#[test]
fn identifier_resolves_to_the_first_entity_in_layout_order() {
    let mut cx = Cx::new();
    let a = cx.create(Entity::root(), 0).unwrap();
    let a1 = cx.create(a, 0).unwrap();
    let b = cx.create(Entity::root(), 1).unwrap();
    cx.style.modify(b).unwrap().id = Some(String::from("ok"));
    cx.style.modify(a1).unwrap().id = Some(String::from("ok"));
    cx.style.modify(a).unwrap().id = Some(String::from("panel"));
    assert_eq!(cx.resolve_entity_identifier("ok"), Some(a1));
    assert_eq!(cx.resolve_entity_identifier("panel"), Some(a));
    assert_eq!(cx.resolve_entity_identifier("none"), None);
    cx.remove(a);
    assert_eq!(cx.resolve_entity_identifier("ok"), Some(b));
    assert_eq!(cx.resolve_entity_identifier("panel"), None);
}

#[test]
fn no_two_images_share_a_path_and_no_two_fonts_a_name() {
    let mut cx = Cx::new();
    for path in ["a.png", "b.png", "a.png", "c.png", "b.png"] {
        cx.load_image(String::from(path), ImageRetentionPolicy::Forever);
    }
    let paths: Vec<&str> = cx.resource_manager.images.iter().map(|i| i.path.as_str()).collect();
    assert_eq!(paths, vec!["a.png", "b.png", "c.png"]);
    for name in ["x", "y", "x"] {
        cx.add_font_mem(name, &[0]);
    }
    let names: Vec<&str> = cx.resource_manager.fonts.iter().map(|f| f.name.as_str()).collect();
    assert_eq!(names, vec!["x", "y"]);
}
