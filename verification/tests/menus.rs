use menu::error::Error;
use menu::json_menu;
use menu::menu::{get_menu_dir, load, menu as chosen_entries, names, MenuItem};

fn readme_config() -> Vec<MenuItem> {
    vec![
        MenuItem::Cmd { name: "Run".to_string(), cmd: "./scripts/run".to_string() },
        MenuItem::Dir { name: "Power".to_string(), dir: "./power".to_string() },
    ]
}

#[test]
fn picking_run_runs_its_command() {
    let items = readme_config();
    let picked = chosen_entries(&items, "Run");
    assert_eq!(picked, vec![0]);
    match &items[picked[0]] {
        MenuItem::Cmd { cmd, .. } => assert_eq!(cmd, "./scripts/run"),
        MenuItem::Dir { .. } => panic!("expected a command"),
    }
}

#[test]
fn picking_power_opens_the_submenu() {
    let items = readme_config();
    let picked = chosen_entries(&items, "Power");
    assert_eq!(picked, vec![1]);
    match &items[picked[0]] {
        MenuItem::Dir { dir, .. } => assert_eq!(dir, "./power"),
        MenuItem::Cmd { .. } => panic!("expected a directory"),
    }
}

#[test]
fn every_entry_of_the_name_is_carried_out() {
    let items = vec![
        MenuItem::Cmd { name: "A".to_string(), cmd: "a1".to_string() },
        MenuItem::Cmd { name: "B".to_string(), cmd: "b".to_string() },
        MenuItem::Cmd { name: "A".to_string(), cmd: "a2".to_string() },
    ];
    assert_eq!(chosen_entries(&items, "A"), vec![0, 2]);
    assert_eq!(chosen_entries(&items, "C"), Vec::<usize>::new());
}

#[test]
fn names_follow_the_configuration() {
    assert_eq!(names(&readme_config()), vec!["Run".to_string(), "Power".to_string()]);
}

#[test]
fn get_name_reads_either_kind() {
    let items = readme_config();
    assert_eq!(items[0].get_name(), "Run");
    assert_eq!(items[1].get_name(), "Power");
}

#[test]
fn load_takes_the_first_file_present() {
    assert_eq!(load(&vec![true, true, true]).unwrap(), "config.yaml");
    assert_eq!(load(&vec![false, true, true]).unwrap(), "config.yml");
    assert_eq!(load(&vec![false, false, true]).unwrap(), "config.json");
}

#[test]
fn load_without_a_file_is_config_not_found() {
    assert!(matches!(load(&vec![false, false, false]), Err(Error::ConfigNotFound)));
}

#[test]
fn menu_dir_is_under_the_config_dir() {
    assert_eq!(get_menu_dir("/home/u/.config"), "/home/u/.config/menu");
    assert_eq!(json_menu::get_menu_dir("/c"), "/c/menu");
}

#[test]
fn json_menu_carries_out_the_first_entry_only() {
    let items = vec![
        json_menu::MenuItem::Cmd { name: "Poweroff".to_string(), cmd: "poweroff".to_string() },
        json_menu::MenuItem::Cmd { name: "Reboot".to_string(), cmd: "reboot".to_string() },
        json_menu::MenuItem::Cmd { name: "Reboot".to_string(), cmd: "reboot -f".to_string() },
    ];
    assert_eq!(json_menu::menu(&items, "Reboot"), Some(1));
    assert_eq!(json_menu::menu(&items, "Poweroff"), Some(0));
    assert_eq!(json_menu::menu(&items, "Sleep"), None);
    assert_eq!(items[2].name(), "Reboot");
}
