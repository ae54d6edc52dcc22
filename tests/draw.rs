use coop_async::draw::{Button, Draw, Screen, SelectBox};

#[test]
fn screen_runs_every_component() {
    let select_box = SelectBox {
        width: 75,
        height: 10,
        options: vec![String::from("Yes"), String::from("No"), String::from("Maybe")],
    };
    let button = Button { width: 50, height: 10, label: String::from("Ok") };
    button.draw();
    let screen = Screen { components: vec![Box::new(select_box), Box::new(button)] };
    assert_eq!(screen.components.len(), 2);
    screen.run();
}

#[test]
fn empty_screen_runs() {
    let screen = Screen { components: Vec::new() };
    screen.run();
}
