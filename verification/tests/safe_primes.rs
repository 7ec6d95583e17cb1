//! Safe primes: bit-length validation, generation, the pure predicate on
//! known vectors, and the predicate on the generator's own output.

use pumpkin::big::Big;
use pumpkin::safe_prime;
use pumpkin::safe_prime::is_safe_prime;

fn from_dec(s: &str) -> Big {
    Big::from_decimal(&s.as_bytes().to_vec()).unwrap()
}

#[test]
fn test_safe_prime_bit_length_too_small() {
    let sp = safe_prime::new(511);
    assert_eq!(
        false,
        match sp {
            Ok(_) => true,
            Err(_) => false,
        }
    );
}

#[test]
fn test_safe_prime() {
    let sp = safe_prime::new(512);
    assert_eq!(
        true,
        match sp {
            Ok(_) => true,
            Err(_) => false,
        }
    );
}

#[test]
fn test_is_safe_prime() {
    // Entries of a published Cunningham chain: p0 is a Sophie Germain prime
    // but not itself safe; the others are safe primes.
    let p0 = from_dec("37313426856874901938110133384605074194791927500210707276948918975046371522830901596065044944558427864187196889881993164303255749681644627614963632713725183364319410825898054225147061624559894980555489070322738683900143562848200257354774040241218537613789091499134051387344396560066242901217378861764936185029");
    assert!(!is_safe_prime(&p0));
    let p1 = from_dec("74626853713749803876220266769210148389583855000421414553897837950092743045661803192130089889116855728374393779763986328606511499363289255229927265427450366728638821651796108450294123249119789961110978140645477367800287125696400514709548080482437075227578182998268102774688793120132485802434757723529872370059");
    assert!(is_safe_prime(&p1));
    let p2 = from_dec("149253707427499607752440533538420296779167710000842829107795675900185486091323606384260179778233711456748787559527972657213022998726578510459854530854900733457277643303592216900588246498239579922221956281290954735600574251392801029419096160964874150455156365996536205549377586240264971604869515447059744740119");
    assert!(is_safe_prime(&p2));
    let p3 = from_dec("298507414854999215504881067076840593558335420001685658215591351800370972182647212768520359556467422913497575119055945314426045997453157020919709061709801466914555286607184433801176492996479159844443912562581909471201148502785602058838192321929748300910312731993072411098755172480529943209739030894119489480239");
    assert!(is_safe_prime(&p3));
    let p4 = from_dec("4806876214089177439121678559764069543282270755154137981051366776821330958611719328037311759924923156830623290278296826263863902327008664143707117531049168010908663795201825132050017581985031718536424081509084930569115857201636971728388275433540277562846153879803474020036767852693656753257597801227199822164846876100177774044259379232968071371318658371230787073384750022830829873718254139779006439569882904712552834431199870749249168775012460891012776977366721903");
    assert!(is_safe_prime(&p4));
}

#[test]
fn test_is_safe_prime_small_values() {
    // 5, 11 and 23 are safe primes; 7 and 13 are primes with p mod 3 = 1,
    // so they are rejected by the congruence pre-filter alone.
    assert!(is_safe_prime(&Big::from_u64(5)));
    assert!(is_safe_prime(&Big::from_u64(11)));
    assert!(is_safe_prime(&Big::from_u64(23)));
    assert!(!is_safe_prime(&Big::from_u64(7)));
    assert!(!is_safe_prime(&Big::from_u64(13)));
    // 29 is prime and congruent to 2 mod 3, but 14 is not prime.
    assert!(!is_safe_prime(&Big::from_u64(29)));
}

#[test]
fn test_new_safe_prime_result_is_safe() {
    let sp = safe_prime::new(512).unwrap();
    assert!(is_safe_prime(&sp));
}

#[test]
fn test_safe_prime_from_rng_rejects_small_length() {
    let mut rng = rand::rngs::OsRng;
    match safe_prime::from_rng(300, &mut rng) {
        Err(pumpkin::error::Error::BitLength(l)) => assert_eq!(l, 300),
        _ => panic!("a bit length below 512 must yield BitLength"),
    }
}
