use eigen_ai_avs_example::say_hello;

#[test]
fn it_works() {
    let result = say_hello("Alice".into()).unwrap();
    assert_eq!(result, "Hello, Alice!");
}

#[test]
fn say_hello_keeps_the_name_as_given() {
    assert_eq!(say_hello(String::new()).unwrap(), "Hello, !");
    assert_eq!(say_hello("Zoë Ångström".into()).unwrap(), "Hello, Zoë Ångström!");
}
