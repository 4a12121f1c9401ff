use easyssg::BuildError;
use easyssg::Page;
use easyssg::Site;
use easyssg::SiteNode;

fn path_of(segments: &[&str]) -> Vec<String> {
    segments.iter().map(|s| s.to_string()).collect()
}

#[test]
fn test_add_page_to_root() {
    // Lower Bound Case: Adding directly to root
    let mut site = Site::new();
    let page = Page::new("Markdown content for root page");
    assert!(site.add_page(&path_of(&["root_page"]), page).is_ok());

    assert!(matches!(
        site.get(&"root_page".to_string()),
        Some(SiteNode::Page(_))
    ));
}

#[test]
fn test_add_page_to_mid_level_folder() {
    // Normal Case: Adding to a mid-level folder
    let mut site = Site::new();
    let page = Page::new("Markdown content for mid-level page");
    assert!(site
        .add_page(&path_of(&["folder1", "folder2", "mid_page"]), page)
        .is_ok());

    if let Some(folder @ SiteNode::Folder(_)) = site.get(&"folder1".to_string()) {
        if let Some(subfolder @ SiteNode::Folder(_)) = folder.get(&"folder2".to_string()) {
            assert!(matches!(
                subfolder.get(&"mid_page".to_string()),
                Some(SiteNode::Page(_))
            ));
        } else {
            panic!("Subfolder folder2 not found");
        }
    } else {
        panic!("Folder folder1 not found");
    }
}

#[test]
fn test_add_page_to_deeply_nested_folder() {
    // Upper Bound Case: Adding to a deeply nested folder
    let mut site = Site::new();
    let page = Page::new("Markdown content for deeply nested page");
    assert!(site
        .add_page(&path_of(&["lvl1", "lvl2", "lvl3", "lvl4", "deep_page"]), page)
        .is_ok());

    let mut current: &SiteNode = match site.get(&"lvl1".to_string()) {
        Some(node @ SiteNode::Folder(_)) => node,
        _ => panic!("Expected folder not found at level {}", "lvl1"),
    };
    for &level in ["lvl2", "lvl3", "lvl4"].iter() {
        current = match current.get(&level.to_string()) {
            Some(node @ SiteNode::Folder(_)) => node,
            _ => panic!("Expected folder not found at level {}", level),
        };
    }
    assert!(matches!(
        current.get(&"deep_page".to_string()),
        Some(SiteNode::Page(_))
    ));
}

#[test]
fn test_insert_under_page_is_structural_conflict() {
    let mut site = Site::new();
    let first = Page::new("first");
    assert!(site.add_page(&path_of(&["a", "b"]), first).is_ok());

    let second = Page::new("second");
    let result = site.add_page(&path_of(&["a", "b", "c"]), second);
    assert_eq!(result, Err(BuildError::StructuralConflict));
}

#[test]
fn test_conflict_leaves_site_unchanged() {
    let mut site = Site::new();
    let first = Page::new("# kept");
    assert!(site.add_page(&path_of(&["a", "b"]), first).is_ok());

    let second = Page::new("# other");
    assert!(site.add_page(&path_of(&["a", "b", "c"]), second).is_err());

    let folder = match site.get(&"a".to_string()) {
        Some(node @ SiteNode::Folder(_)) => node,
        _ => panic!("Folder a not found"),
    };
    match folder.get(&"b".to_string()) {
        Some(SiteNode::Page(page)) => {
            assert_eq!(page.get_html(), Page::new("# kept").get_html());
        }
        _ => panic!("Page b not found"),
    }
}

#[test]
fn test_leaf_insertion_overwrites_silently() {
    let mut site = Site::new();
    let first = Page::new("# old");
    assert!(site.add_page(&path_of(&["a"]), first).is_ok());

    let second = Page::new("# new");
    assert!(site.add_page(&path_of(&["a"]), second).is_ok());

    match site.get(&"a".to_string()) {
        Some(SiteNode::Page(page)) => {
            assert_eq!(page.get_html(), Page::new("# new").get_html());
        }
        _ => panic!("Page a not found"),
    }
}

#[test]
fn test_leaf_insertion_overwrites_folder_too() {
    let mut site = Site::new();
    let inner = Page::new("inner");
    assert!(site.add_page(&path_of(&["a", "b"]), inner).is_ok());

    let replacement = Page::new("replacement");
    assert!(site.add_page(&path_of(&["a"]), replacement).is_ok());

    assert!(matches!(site.get(&"a".to_string()), Some(SiteNode::Page(_))));
}

#[test]
fn test_lookup_of_unbound_name() {
    let mut site = Site::new();
    assert!(site.get(&"missing".to_string()).is_none());
    let page = Page::new("x");
    assert!(site.add_page(&path_of(&["present"]), page).is_ok());
    assert!(site.get(&"missing".to_string()).is_none());
}
