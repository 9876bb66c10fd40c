use red_mod::key::RaxKey;
use red_mod::rax::Rax;
use red_mod::sds::SDS;

pub struct MyMsg<'a>(&'a str);

impl<'a> Drop for MyMsg<'a> {
    fn drop(&mut self) {
        println!("dropped -> {}", self.0);
    }
}

#[test]
fn key_str() {
    let mut r = Rax::<String, MyMsg>::new();

    let key = "hello-way";

    r.insert(key.to_string(), Box::new(MyMsg("world 80"))).expect("whoops!");
    r.insert("hello-war".to_string(), Box::new(MyMsg("world 80"))).expect("whoops!");

    r.insert("hello-wares".to_string(), Box::new(MyMsg("world 80"))).expect("whoops!");
    r.insert("hello".to_string(), Box::new(MyMsg("world 100"))).expect("whoops!");

    {
        match r.find("hello".to_string()) {
            Some(v) => println!("Found {}", v.0),
            None => println!("Not Found"),
        }
    }
    assert_eq!(r.find("hello".to_string()).map(|v| v.0), Some("world 100"));
    assert_eq!(r.size(), 4);

    let mut forward = Vec::new();
    r.first();
    while r.next() {
        println!("{}", r.key());
        forward.push(r.key());
    }
    assert_eq!(forward, vec!["hello", "hello-war", "hello-wares", "hello-way"]);
    let mut backward = Vec::new();
    r.last();
    while r.prev() {
        println!("{}", r.key());
        backward.push(r.key());
    }
    assert_eq!(backward, vec!["hello-way", "hello-wares", "hello-war", "hello"]);
}

#[test]
fn key_f64() {
    println!("sizeof(Rax) {}", std::mem::size_of::<Rax<u64, MyMsg>>());

    let mut r = Rax::<u64, MyMsg>::new();

    r.insert(100.01f64.to_bits(), Box::new(MyMsg("world 100"))).expect("whoops!");
    r.insert(80.20f64.to_bits(), Box::new(MyMsg("world 80"))).expect("whoops!");
    r.insert(100.00f64.to_bits(), Box::new(MyMsg("world 200"))).expect("whoops!");
    r.insert(99.10f64.to_bits(), Box::new(MyMsg("world 1"))).expect("whoops!");

    let mut forward = Vec::new();
    r.first();
    while r.next() {
        println!("{}", f64::from_bits(r.key()));
        forward.push(f64::from_bits(r.key()));
    }
    assert_eq!(forward, vec![80.20, 99.10, 100.00, 100.01]);
    let mut backward = Vec::new();
    r.last();
    while r.prev() {
        println!("{}", f64::from_bits(r.key()));
        backward.push(f64::from_bits(r.key()));
    }
    assert_eq!(backward, vec![100.01, 100.00, 99.10, 80.20]);
}

#[test]
fn key_u64() {
    println!("sizeof(Rax) {}", std::mem::size_of::<Rax<u64, MyMsg>>());

    let mut r = Rax::<u64, MyMsg>::new();

    r.insert(100, Box::new(MyMsg("world 100"))).expect("whoops!");
    r.insert(80, Box::new(MyMsg("world 80"))).expect("whoops!");
    r.insert(200, Box::new(MyMsg("world 200"))).expect("whoops!");
    r.insert(1, Box::new(MyMsg("world 1"))).expect("whoops!");

    let mut forward = Vec::new();
    r.first();
    while r.next() {
        println!("{}", r.key());
        forward.push(r.key());
    }
    assert_eq!(forward, vec![1, 80, 100, 200]);
    let mut backward = Vec::new();
    r.last();
    while r.prev() {
        println!("{}", r.key());
        backward.push(r.key());
    }
    assert_eq!(backward, vec![200, 100, 80, 1]);
}

#[test]
fn test_keyed() {
    let mut r = Rax::<SDS, MyMsg>::new();

    r.insert(SDS::new("hello"), Box::new(MyMsg("world x10"))).expect("whoops!");

    match r.find(SDS::new("hi")) {
        Some(v) => {
            println!("Found: {}", v.0);
        }
        None => {
            println!("Not Found");
        }
    };
    assert!(r.find(SDS::new("hi")).is_none());

    match r.find(SDS::new("hello")) {
        Some(v) => {
            println!("Found: {}", v.0);
        }
        None => {
            println!("Not Found");
        }
    };
    assert_eq!(r.find(SDS::new("hello")).map(|v| v.0), Some("world x10"));

    r.remove(SDS::new("hello"));
    assert!(r.find(SDS::new("hello")).is_none());
    r.insert(SDS::new("hello"), Box::new(MyMsg("world x10"))).expect("whoops!");
    r.insert(SDS::new("hello-16"), Box::new(MyMsg("world x11"))).expect("whoops!");
    r.insert(SDS::new("hello-20"), Box::new(MyMsg("world x12"))).expect("whoops!");
    r.insert(SDS::new("hello-01"), Box::new(MyMsg("world x13"))).expect("whoops!");

    let mut forward: Vec<Vec<u8>> = Vec::new();
    r.first();
    while r.next() {
        println!("{:?}", r.key());
        forward.push(r.key().as_bytes().to_vec());
    }
    assert_eq!(
        forward,
        vec![b"hello".to_vec(), b"hello-01".to_vec(), b"hello-16".to_vec(), b"hello-20".to_vec()]
    );
    let mut backward: Vec<Vec<u8>> = Vec::new();
    r.last();
    while r.prev() {
        println!("{:?}", r.key());
        backward.push(r.key_bytes().to_vec());
    }
    assert_eq!(
        backward,
        vec![b"hello-20".to_vec(), b"hello-16".to_vec(), b"hello-01".to_vec(), b"hello".to_vec()]
    );
}

#[test]
fn test_len() {
    let s = SDS::new("hello");
    assert_eq!(s.len(), 5);
    assert_eq!(s.encode(), b"hello".to_vec());
}
