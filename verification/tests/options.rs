use libixx::options::{complete_url, default_file, is_indexed, qualified_name, store_path_tail};
use libixx::{update_declaration, Declaration, DeclarationError};
use url::Url;

fn updated(url_prefix: &Url, declaration: Declaration) -> Result<Url, DeclarationError> {
    update_declaration(url_prefix.as_str(), declaration).map(|url| Url::parse(&url).unwrap())
}

#[test]
fn test_update_declaration() {
    assert_eq!(
        updated(
            &Url::parse("https://example.com/some/path").unwrap(),
            Declaration::StorePath(
                "/nix/store/vgvk6q3zsjgb66f8s5cm8djz6nmcag1i-source/modules/initrd.nix".to_string()
            )
        )
        .unwrap(),
        Url::parse("https://example.com/some/modules/initrd.nix").unwrap()
    );

    assert_eq!(
        updated(
            &Url::parse("https://example.com/some/path/").unwrap(),
            Declaration::StorePath(
                "/nix/store/vgvk6q3zsjgb66f8s5cm8djz6nmcag1i-source/modules/initrd.nix".to_string()
            )
        )
        .unwrap(),
        Url::parse("https://example.com/some/path/modules/initrd.nix").unwrap()
    );

    assert_eq!(
        updated(
            &Url::parse("https://example.com/some/path/").unwrap(),
            Declaration::StorePath(
                "/nix/store/vgvk6q3zsjgb66f8s5cm8djz6nmcag1i-source-idk/modules/initrd.nix"
                    .to_string()
            )
        )
        .unwrap(),
        Url::parse("https://example.com/some/path/modules/initrd.nix").unwrap()
    );

    // Suffix default.nix if url is referencing folder
    assert_eq!(
        updated(
            &Url::parse("https://example.com/some/path").unwrap(),
            Declaration::Url {
                name: "idk".to_string(),
                url: Url::parse("https://example.com/some/path").unwrap().to_string(),
            }
        )
        .unwrap(),
        Url::parse("https://example.com/some/path/default.nix").unwrap()
    );

    assert_eq!(
        updated(
            &Url::parse("https://example.com/some/path").unwrap(),
            Declaration::Url {
                name: "idk".to_string(),
                url: Url::parse("https://example.com/some/path/").unwrap().to_string(),
            }
        )
        .unwrap(),
        Url::parse("https://example.com/some/path/default.nix").unwrap()
    );

    // nixpkgs edge case
    assert_eq!(
        updated(
            &Url::parse("https://example.com/some/path/").unwrap(),
            Declaration::StorePath("nixos/hello/world.nix".to_string()),
        )
        .unwrap(),
        Url::parse("https://example.com/some/path/nixos/hello/world.nix").unwrap()
    );
}

#[test]
fn update_declaration_gives_exact_text() {
    assert_eq!(
        update_declaration(
            "https://example.com/some/path/",
            Declaration::StorePath("/nix/store/hash-source/modules".to_string())
        ),
        Ok("https://example.com/some/path/modules/default.nix".to_string())
    );
    assert_eq!(
        update_declaration(
            "https://example.com/a/b?x=1",
            Declaration::Url { name: "n".to_string(), url: "https://example.com/a/b.nix?x=1".to_string() }
        ),
        Ok("https://example.com/a/b.nix?x=1".to_string())
    );
}

#[test]
fn update_declaration_refuses_short_store_paths() {
    assert_eq!(
        update_declaration("https://example.com/", Declaration::StorePath("/nix/store".to_string())),
        Err(DeclarationError::InvalidStorePath)
    );
    assert_eq!(
        update_declaration("https://example.com/", Declaration::StorePath("/".to_string())),
        Err(DeclarationError::InvalidStorePath)
    );
}

#[test]
fn update_declaration_refuses_what_is_no_url() {
    assert_eq!(
        update_declaration("no url", Declaration::StorePath("modules/a.nix".to_string())),
        Err(DeclarationError::InvalidUrl)
    );
    assert_eq!(
        update_declaration(
            "https://example.com/",
            Declaration::Url { name: "n".to_string(), url: "no url".to_string() }
        ),
        Err(DeclarationError::InvalidUrl)
    );
}

#[test]
fn store_path_tail_drops_the_store_directory() {
    assert_eq!(
        store_path_tail("/nix/store/hash-source/modules/initrd.nix"),
        Some("modules/initrd.nix".to_string())
    );
    assert_eq!(store_path_tail("/nix/store/hash-source/"), Some("".to_string()));
    assert_eq!(store_path_tail("/nix/store/hash-source"), None);
    assert_eq!(store_path_tail("nixos/hello/world.nix"), Some("nixos/hello/world.nix".to_string()));
    assert_eq!(store_path_tail(""), Some("".to_string()));
    assert_eq!(store_path_tail("/a/b/c/häß/x.nix"), Some("häß/x.nix".to_string()));
}

#[test]
fn default_file_follows_the_path() {
    assert_eq!(default_file("/some/path.nix"), None);
    assert_eq!(default_file("/some/path/"), Some("default.nix".to_string()));
    assert_eq!(default_file("/some/path"), Some("path/default.nix".to_string()));
    assert_eq!(default_file("/"), Some("default.nix".to_string()));
    assert_eq!(default_file(""), Some("/default.nix".to_string()));
    assert_eq!(default_file("x@example.org"), Some("/default.nix".to_string()));
    assert_eq!(default_file("/some/päth"), Some("päth/default.nix".to_string()));
    assert_eq!(default_file("nix"), Some("/default.nix".to_string()));
}

#[test]
fn complete_url_needs_a_path() {
    assert_eq!(
        complete_url("https://example.com/a".to_string(), None),
        Err(DeclarationError::InvalidUrl)
    );
    assert_eq!(
        complete_url("https://example.com/a".to_string(), Some("/a.nix".to_string())),
        Ok("https://example.com/a".to_string())
    );
    assert_eq!(
        complete_url("https://example.com/a/".to_string(), Some("/a/".to_string())),
        Ok("https://example.com/a/default.nix".to_string())
    );
}

#[test]
fn hidden_options_are_not_indexed() {
    assert!(!is_indexed("_module.args"));
    assert!(!is_indexed("<imports = [ pkgs.ghostunnel.services.default ]>.ghostunnel.listen"));
    assert!(!is_indexed("<imports = [ pkgs."));
    assert!(is_indexed("_module.args.x"));
    assert!(is_indexed("<imports = [ pkgs"));
    assert!(is_indexed("home.enableDebugInfo"));
    assert!(is_indexed(""));
}

#[test]
fn qualified_name_puts_the_prefix_in_front() {
    assert_eq!(qualified_name(Some("home-manager"), "home.file"), "home-manager.home.file");
    assert_eq!(qualified_name(None, "home.file"), "home.file");
    assert_eq!(qualified_name(Some(""), "a"), ".a");
}

#[test]
fn names_are_ordered_byte_by_byte() {
    let names: Vec<String> = ["b", "a", "b", "A", "", "ab", "a.b", "ä"]
        .iter()
        .map(|name| name.to_string())
        .collect();
    assert_eq!(libixx::order::sorted_order(&names), vec![4, 3, 1, 6, 5, 0, 2, 7]);
    assert_eq!(libixx::order::sorted_order(&Vec::new()), Vec::<usize>::new());
}

#[test]
fn order_agrees_with_a_stable_sort() {
    let names: Vec<String> = [
        "services.home-manager.autoUpgrade.frequency",
        "home.enableDebugInfo",
        "programs.home-manager.enable",
        "home.enableDebugInfo",
        "home.file.<name>.enable",
        "home",
        "home.enableDebugInfo",
    ]
    .iter()
    .map(|name| name.to_string())
    .collect();
    let mut expected: Vec<usize> = (0..names.len()).collect();
    expected.sort_by(|a, b| names[*a].cmp(&names[*b]));
    assert_eq!(libixx::order::sorted_order(&names), expected);
    assert_eq!(expected, vec![5, 1, 3, 6, 4, 2, 0]);
}

#[test]
fn bytes_le_is_lexicographic() {
    assert!(libixx::order::bytes_le(b"", b""));
    assert!(libixx::order::bytes_le(b"", b"a"));
    assert!(!libixx::order::bytes_le(b"a", b""));
    assert!(libixx::order::bytes_le(b"a", b"ab"));
    assert!(!libixx::order::bytes_le(b"ab", b"a"));
    assert!(libixx::order::bytes_le(b"ab", b"b"));
    assert!(libixx::order::bytes_le(b"ab", b"ab"));
    assert!(!libixx::order::bytes_le(b"b", b"ab"));
}
