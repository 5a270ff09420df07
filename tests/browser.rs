use radicle_surf::directory::{Directory, File, SystemType};
use radicle_surf::history::History;
use radicle_surf::path::{Label, Path};
use radicle_surf::vcs::Browser;

fn render(repo: &Vec<&'static str>, history: &History<usize>) -> Result<Directory, String> {
    let name = repo.get(*history.first()).ok_or_else(|| "no such revision".to_string())?;
    Ok(Directory::from_entries(&vec![(
        Path::root(),
        vec![(Label::parse(name).unwrap(), File::new(vec![]))],
    )]))
}

#[test]
fn browser_views_and_renders() {
    let repo = vec!["first", "second", "third"];
    let mut browser = Browser::new(repo, History::from_vec(vec![2, 1, 0]).unwrap(), render);
    assert_eq!(browser.get_history().iter(), &[2, 1, 0][..]);
    let d = browser.get_directory().unwrap();
    assert_eq!(d.list_directory(), vec![SystemType::File(Label::parse("third").unwrap())]);

    browser.set_history(History::new(0));
    assert_eq!(browser.get_history().iter(), &[0][..]);

    browser.modify_history(|h: &History<usize>| {
        let mut h = h.clone();
        h.push(9);
        h
    });
    assert_eq!(browser.get_history().iter(), &[0, 9][..]);
    assert!(browser.get_directory().is_ok());

    browser.view_at(History::new(1), |h: &History<usize>| h.find_suffix(&9));
    assert_eq!(browser.get_history().iter(), &[9][..]);
    assert!(browser.get_directory().is_err());

    browser.view_at(History::new(1), |h: &History<usize>| h.find_suffix(&42));
    assert_eq!(browser.get_history().iter(), &[1][..]);
}
