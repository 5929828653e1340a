use std::cmp::Ordering;
use static_blog::model::{
    article_cmp, navigation_cmp_item, navigation_cmp_page, navigation_cmp_section, normalize_order,
    ArticleModel, NavigationItem, PageModel, SectionModel,
};

fn item(title: &str, order: Option<i32>) -> NavigationItem {
    NavigationItem { title: title.to_string(), path: format!("/{title}/"), order }
}

fn page(title: &str, order: Option<i32>) -> PageModel {
    PageModel {
        slug: title.to_lowercase(),
        path: format!("/{}/", title.to_lowercase()),
        title: title.to_string(),
        description: String::new(),
        order,
        html: String::new(),
    }
}

fn section(title: &str, order: Option<i32>) -> SectionModel {
    SectionModel {
        path: format!("/{}/", title.to_lowercase()),
        title: title.to_string(),
        description: String::new(),
        order,
        html: String::new(),
        articles: Vec::new(),
    }
}

fn article(title: &str, date: Option<&str>, order: Option<i32>) -> ArticleModel {
    ArticleModel {
        path: format!("/blog/{}/", title.to_lowercase()),
        title: title.to_string(),
        description: String::new(),
        summary: String::new(),
        date_display: date.map(String::from),
        date_sort_key: date.map(String::from),
        order,
        html: String::new(),
    }
}

#[test]
fn normalize_order_puts_missing_last() {
    assert_eq!(normalize_order(Some(3)), 3);
    assert_eq!(normalize_order(None), i32::MAX);
}

#[test]
fn navigation_orders_by_order_then_title() {
    assert_eq!(navigation_cmp_item(&item("B", Some(1)), &item("A", Some(2))), Ordering::Less);
    assert_eq!(navigation_cmp_item(&item("B", Some(1)), &item("A", Some(1))), Ordering::Greater);
    assert_eq!(navigation_cmp_item(&item("A", None), &item("Z", Some(100))), Ordering::Greater);
    assert_eq!(navigation_cmp_item(&item("A", None), &item("A", Some(i32::MAX))), Ordering::Equal);
    assert_eq!(navigation_cmp_page(&page("About", None), &page("Zeta", Some(0))), Ordering::Greater);
    assert_eq!(navigation_cmp_section(&section("Blog", Some(1)), &section("Archive", Some(1))), Ordering::Greater);
}

#[test]
fn title_comparison_is_by_bytes() {
    assert_eq!(navigation_cmp_item(&item("Zebra", None), &item("apple", None)), Ordering::Less);
    assert_eq!(navigation_cmp_item(&item("ab", None), &item("abc", None)), Ordering::Less);
    assert_eq!(navigation_cmp_item(&item("é", None), &item("z", None)), Ordering::Greater);
}

#[test]
fn articles_newest_first_then_undated() {
    let new = article("New", Some("2024-02-01"), None);
    let old = article("Old", Some("2023-12-31"), Some(1));
    let undated = article("Undated", None, Some(0));
    assert_eq!(article_cmp(&new, &old), Ordering::Less);
    assert_eq!(article_cmp(&old, &new), Ordering::Greater);
    assert_eq!(article_cmp(&old, &undated), Ordering::Less);
    assert_eq!(article_cmp(&undated, &new), Ordering::Greater);
}

#[test]
fn articles_with_same_date_fall_back_to_order_and_title() {
    let a = article("Alpha", Some("2024-01-01"), Some(5));
    let b = article("Beta", Some("2024-01-01"), Some(2));
    let c = article("Gamma", Some("2024-01-01"), Some(2));
    assert_eq!(article_cmp(&a, &b), Ordering::Greater);
    assert_eq!(article_cmp(&b, &c), Ordering::Less);
    assert_eq!(article_cmp(&c, &c), Ordering::Equal);
}

#[test]
fn comparators_are_antisymmetric() {
    let xs = [item("A", Some(1)), item("B", None), item("A", None), item("C", Some(1))];
    for x in &xs {
        for y in &xs {
            assert_eq!(navigation_cmp_item(x, y), navigation_cmp_item(y, x).reverse());
        }
    }
}
